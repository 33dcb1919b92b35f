//! Which root may be indexed and where its data is kept.

use vstd::prelude::*;

use crate::model::{Coverage, FileIndexState, RootCoverage};
use crate::paths::{self, FilePath};
use crate::projection::ProjectionError;
use crate::scanner;
use crate::text::same_str;
use crate::volume::{self, volume_containing, Volume};

verus! {

/// The coverage of a root with this many skipped locations.
pub fn coverage_for_skips(skip_count: usize) -> (coverage: Coverage)
    ensures
        coverage == scanner::skips_coverage(skip_count as nat),
        coverage == Coverage::Complete <==> skip_count == 0,
{
    if skip_count == 0 {
        Coverage::Complete
    } else {
        Coverage::Partial
    }
}

/// Whether a volume is to be indexed.
#[derive(Clone, Debug, PartialEq, Eq)]
pub struct VolumeConfiguration {
    pub identity: String,
    pub enabled: bool,
}

/// The first configuration of a volume enables it.
pub open spec fn opted_in(configurations: Seq<VolumeConfiguration>, identity: Seq<char>) -> bool
    decreases configurations.len(),
{
    if configurations.len() == 0 {
        false
    } else if configurations[0].identity@ == identity {
        configurations[0].enabled
    } else {
        opted_in(configurations.drop_first(), identity)
    }
}

/// Tells whether a volume is enabled.
pub fn is_opted_in(configurations: &[VolumeConfiguration], identity: &str) -> (enabled: bool)
    ensures
        enabled == opted_in(configurations@, identity@),
{
    let ghost all = configurations@;
    assert(all.skip(0) =~= all);
    for i in 0..configurations.len()
        invariant
            all == configurations@,
            opted_in(all, identity@) == opted_in(all.skip(i as int), identity@),
    {
        assert(all.skip(i as int)[0] == all[i as int]);
        assert(all.skip(i as int).drop_first() =~= all.skip(i + 1));
        if same_str(configurations[i].identity.as_str(), identity) {
            return configurations[i].enabled;
        }
    }
    false
}

/// Why a root is not indexed.
#[derive(Clone, Copy, Debug, PartialEq, Eq, Structural)]
pub enum AdmissionError {
    NotOnAVolume,
    NotOptedIn,
}

impl AdmissionError {
    /// The words for an error.
    pub open spec fn text(self) -> Seq<char> {
        match self {
            AdmissionError::NotOnAVolume => "configured root is not on a discovered volume"@,
            AdmissionError::NotOptedIn => "configured external volume requires explicit opt-in"@,
        }
    }

    /// Gives the words for this error.
    pub fn message(&self) -> (text: &'static str)
        ensures
            text@ == self.text(),
    {
        match self {
            AdmissionError::NotOnAVolume => "configured root is not on a discovered volume",
            AdmissionError::NotOptedIn => "configured external volume requires explicit opt-in",
        }
    }
}

/// A volume may be indexed: it is local and enabled.
pub open spec fn admissible(volume: Volume, configurations: Seq<VolumeConfiguration>) -> bool {
    volume.local && opted_in(configurations, volume.identity@)
}

/// Finds the volume that a root lies on.
pub fn locate_root<'a>(volumes: &'a [Volume], root: &FilePath) -> (result: Result<
    &'a Volume,
    AdmissionError,
>)
    ensures
        match result {
            Ok(volume) => exists|at: int| #[trigger]
                volume::is_containing(volumes@, *root, at) && *volume == volumes@[at],
            Err(error) => error == AdmissionError::NotOnAVolume && forall|i: int|
                0 <= i < volumes@.len() ==> !volume::holds(#[trigger] volumes@[i], *root),
        },
{
    match volume_containing(volumes, root) {
        None => Err(AdmissionError::NotOnAVolume),
        Some(volume) => Ok(volume),
    }
}

/// Decides whether a volume may be indexed.
pub fn admit_volume(volume: &Volume, configurations: &[VolumeConfiguration]) -> (result: Result<
    (),
    AdmissionError,
>)
    ensures
        result == if admissible(*volume, configurations@) {
            Ok(())
        } else {
            Err::<(), AdmissionError>(AdmissionError::NotOptedIn)
        },
{
    if !volume.local || !is_opted_in(configurations, volume.identity.as_str()) {
        Err(AdmissionError::NotOptedIn)
    } else {
        Ok(())
    }
}

/// What is done next to make the index of a root searchable.
#[derive(Clone, Copy, Debug, PartialEq, Eq, Structural)]
pub enum FirstIndexStep {
    /// Open the projection that is there.
    OpenProjection,
    /// Build the projection anew from the store.
    RebuildProjection,
    /// Scan the root and commit what was found.
    Scan,
    /// Publish the projection with this state.
    Publish(FileIndexState),
}

/// The first step: a root with a committed generation is searched without another scan.
pub open spec fn step_at_start(summary: Option<RootCoverage>) -> FirstIndexStep {
    match summary {
        Some(_) => FirstIndexStep::OpenProjection,
        None => FirstIndexStep::Scan,
    }
}

/// The step after the projection was opened or refused: one that is missing, invalid or stale is
/// built anew.
pub open spec fn step_after_projection(
    refused: Option<ProjectionError>,
    coverage: Coverage,
) -> FirstIndexStep {
    match refused {
        None => FirstIndexStep::Publish(FileIndexState::Current { coverage }),
        Some(_) => FirstIndexStep::RebuildProjection,
    }
}

/// Decides the first step for a root, given what is committed of it.
pub fn first_step(summary: Option<&RootCoverage>) -> (step: FirstIndexStep)
    ensures
        step == match summary {
            Some(report) => step_at_start(Some(*report)),
            None => step_at_start(None),
        },
{
    match summary {
        Some(_) => FirstIndexStep::OpenProjection,
        None => FirstIndexStep::Scan,
    }
}

/// Decides the step after an attempt to open the projection of a committed root: `opened` holds
/// why it was refused.
pub fn after_projection(opened: Option<ProjectionError>, coverage: Coverage) -> (step:
    FirstIndexStep)
    ensures
        step == step_after_projection(opened, coverage),
{
    match opened {
        None => FirstIndexStep::Publish(FileIndexState::Current { coverage }),
        Some(_) => FirstIndexStep::RebuildProjection,
    }
}

/// Decides the step after a scan was committed.
pub fn after_scan() -> (step: FirstIndexStep)
    ensures
        step == FirstIndexStep::RebuildProjection,
{
    FirstIndexStep::RebuildProjection
}

/// Decides the step after the projection was built from the store.
pub fn after_rebuild(coverage: Coverage) -> (step: FirstIndexStep)
    ensures
        step == FirstIndexStep::Publish(FileIndexState::Current { coverage }),
{
    FirstIndexStep::Publish(FileIndexState::Current { coverage })
}

/// `next` comes after `step` for a root with this coverage.
pub open spec fn step_follows(
    step: FirstIndexStep,
    next: FirstIndexStep,
    coverage: Coverage,
) -> bool {
    match step {
        FirstIndexStep::OpenProjection => exists|opened: Option<ProjectionError>|
            next == #[trigger] step_after_projection(opened, coverage),
        FirstIndexStep::RebuildProjection => next == FirstIndexStep::Publish(
            FileIndexState::Current { coverage },
        ),
        FirstIndexStep::Scan => next == FirstIndexStep::RebuildProjection,
        FirstIndexStep::Publish(_) => false,
    }
}

/// The steps for a root, of which `summary` is committed at the start and which has this coverage
/// at the end.
pub open spec fn steps_for_root(
    steps: Seq<FirstIndexStep>,
    summary: Option<RootCoverage>,
    coverage: Coverage,
) -> bool {
    &&& steps.len() > 0
    &&& steps[0] == step_at_start(summary)
    &&& forall|i: int|
        0 < i < steps.len() ==> step_follows(steps[i - 1], #[trigger] steps[i], coverage)
}

/// A committed root is searchable without another scan: none of its steps is a scan, whatever
/// became of its projection, and what is published is the committed coverage.
pub proof fn committed_roots_are_not_scanned_again(
    summary: RootCoverage,
    steps: Seq<FirstIndexStep>,
    at: int,
)
    requires
        steps_for_root(steps, Some(summary), summary.coverage),
        0 <= at < steps.len(),
    ensures
        steps[at] != FirstIndexStep::Scan,
        steps[at] matches FirstIndexStep::Publish(state) ==> state == (FileIndexState::Current {
            coverage: summary.coverage,
        }),
    decreases at,
{
    if at > 0 {
        committed_roots_are_not_scanned_again(summary, steps, at - 1);
        assert(step_follows(steps[at - 1], steps[at], summary.coverage));
    }
}

/// A root of which nothing is committed is scanned once, at the start, and its projection is built
/// from what the scan committed before anything is published.
pub proof fn new_roots_are_scanned_first(coverage: Coverage, steps: Seq<FirstIndexStep>)
    requires
        steps_for_root(steps, None, coverage),
    ensures
        steps[0] == FirstIndexStep::Scan,
        steps.len() > 1 ==> steps[1] == FirstIndexStep::RebuildProjection,
        steps.len() > 2 ==> steps[2] == FirstIndexStep::Publish(
            FileIndexState::Current { coverage },
        ),
        steps.len() <= 3,
{
    if steps.len() > 1 {
        assert(step_follows(steps[0], steps[1], coverage));
    }
    if steps.len() > 2 {
        assert(step_follows(steps[1], steps[2], coverage));
    }
    if steps.len() > 3 {
        assert(step_follows(steps[2], steps[3], coverage));
    }
}

/// Where data is kept below a home directory.
pub open spec fn data_place() -> Seq<char> {
    "Library/Application Support/Everyfile"@
}

/// Chooses the directory in which data is kept: the one that was asked for, or one below the home
/// directory, or one below the directory for temporary files.
pub fn data_directory(
    chosen: Option<FilePath>,
    home: Option<FilePath>,
    temporary: FilePath,
) -> (directory: FilePath)
    ensures
        directory@ == match (chosen, home) {
            (Some(path), _) => path@,
            (None, Some(path)) => paths::child_text(path@, data_place()),
            (None, None) => paths::child_text(temporary@, data_place()),
        },
{
    if let Some(path) = chosen {
        return path;
    }
    let base = match home {
        Some(path) => path,
        None => temporary,
    };
    base.child("Library/Application Support/Everyfile")
}

/// The first configuration of a volume decides, and a volume without any is not enabled.
pub proof fn the_first_configuration_decides(
    before: Seq<VolumeConfiguration>,
    decisive: VolumeConfiguration,
    behind: Seq<VolumeConfiguration>,
)
    requires
        forall|i: int|
            0 <= i < before.len() ==> (#[trigger] before[i]).identity@ != decisive.identity@,
    ensures
        opted_in(before.push(decisive) + behind, decisive.identity@) == decisive.enabled,
        !opted_in(before, decisive.identity@),
    decreases before.len(),
{
    let all = before.push(decisive) + behind;
    if before.len() > 0 {
        let rest = before.drop_first();
        assert forall|i: int| 0 <= i < rest.len() implies (#[trigger] rest[i]).identity@
            != decisive.identity@ by {
            assert(rest[i] == before[i + 1]);
        }
        the_first_configuration_decides(rest, decisive, behind);
        assert(all[0] == before[0]);
        assert(all.drop_first() =~= rest.push(decisive) + behind);
    } else {
        assert(all[0] == decisive);
    }
}

/// Neither a remote volume nor one that is not enabled is indexed.
pub proof fn admission_takes_a_local_and_enabled_volume(
    volume: Volume,
    configurations: Seq<VolumeConfiguration>,
)
    ensures
        admissible(volume, configurations) ==> volume.local && opted_in(
            configurations,
            volume.identity@,
        ),
        volume.local && opted_in(configurations, volume.identity@) ==> admissible(
            volume,
            configurations,
        ),
{
}

/// What is committed of a root decides whether it is scanned, and a projection is published only
/// where it was not refused: for whatever reason it was, it is built anew.
pub proof fn refused_projections_are_built_anew(
    summary: RootCoverage,
    refused: ProjectionError,
    coverage: Coverage,
)
    ensures
        step_at_start(None) == FirstIndexStep::Scan,
        step_at_start(Some(summary)) == FirstIndexStep::OpenProjection,
        step_after_projection(Some(refused), coverage) == FirstIndexStep::RebuildProjection,
        step_after_projection(None, coverage) matches FirstIndexStep::Publish(state)
            && state == (FileIndexState::Current { coverage }),
{
}

} // verus!
