//! The decisions of the runtime incremental indexing service: when a refresh
//! recalibrates and when it rebuilds, and when the delta has grown too large.

use vstd::prelude::*;
use crate::config::IndexConfigChange;
use crate::index_entry::IndexDegradationCode;
use crate::index_update_coordinator::CoordinatorPolicy;
use crate::layered_index::{CommittedIndexDelta, StrSet};

verus! {

/// The most delta entries kept before a baseline refresh.
pub const MAX_DELTA_ENTRIES: usize = 50000;

/// The most delta bytes kept before a baseline refresh.
pub const MAX_DELTA_BYTES: usize = 67108864;

#[derive(Debug, Clone)]
pub struct RuntimeIndexingOptions {
    pub roots: Vec<String>,
    pub policy: CoordinatorPolicy,
    pub initial_generation: u64,
}

#[derive(Debug, Clone, Copy, PartialEq, Eq, Structural)]
pub enum BaselineRefreshReason {
    DeltaSafetyLimit,
    DirtyRoots,
    WatcherFailure,
    CalibrationFailed,
    ManifestUnavailable,
    IndexConfigChanged,
}

/// Whether incremental state can be trusted: a ready manifest and no dirty roots.
#[derive(Debug, Clone, Copy, PartialEq, Eq, Structural)]
pub struct TrustedIncrementalState {
    pub manifest_ready: bool,
    pub dirty_roots: usize,
}

impl TrustedIncrementalState {
    pub fn ready() -> (r: Self)
        ensures
            r == (TrustedIncrementalState { manifest_ready: true, dirty_roots: 0 }),
    {
        TrustedIncrementalState { manifest_ready: true, dirty_roots: 0 }
    }

    pub fn missing_manifest() -> (r: Self)
        ensures
            r == (TrustedIncrementalState { manifest_ready: false, dirty_roots: 0 }),
    {
        TrustedIncrementalState { manifest_ready: false, dirty_roots: 0 }
    }
}

#[derive(Debug, Clone, Copy, PartialEq, Eq, Structural)]
pub enum RefreshDecision {
    FlushPendingThenCalibrateAllRoots,
    FullRefresh(BaselineRefreshReason),
}

/// A manual refresh recalibrates from the manifest only when the index settings
/// kept their meaning, the manifest is ready and no root is dirty; otherwise it
/// rebuilds, for the first of those reasons that holds.
pub open spec fn refresh_decision_spec(state: TrustedIncrementalState, config_change: IndexConfigChange) -> RefreshDecision {
    if config_change == IndexConfigChange::IndexSemantics {
        RefreshDecision::FullRefresh(BaselineRefreshReason::IndexConfigChanged)
    } else if !state.manifest_ready {
        RefreshDecision::FullRefresh(BaselineRefreshReason::ManifestUnavailable)
    } else if state.dirty_roots > 0 {
        RefreshDecision::FullRefresh(BaselineRefreshReason::DirtyRoots)
    } else {
        RefreshDecision::FlushPendingThenCalibrateAllRoots
    }
}

pub fn refresh_decision(state: TrustedIncrementalState, config_change: IndexConfigChange) -> (r: RefreshDecision)
    ensures
        r == refresh_decision_spec(state, config_change),
{
    if config_change == IndexConfigChange::IndexSemantics {
        return RefreshDecision::FullRefresh(BaselineRefreshReason::IndexConfigChanged);
    }
    if !state.manifest_ready {
        return RefreshDecision::FullRefresh(BaselineRefreshReason::ManifestUnavailable);
    }
    if state.dirty_roots > 0 {
        return RefreshDecision::FullRefresh(BaselineRefreshReason::DirtyRoots);
    }
    RefreshDecision::FlushPendingThenCalibrateAllRoots
}

/// What the service publishes: a committed delta, or a request for a baseline
/// refresh with its reason.
#[derive(Debug, Clone)]
pub enum RuntimeIndexingEvent {
    DeltaCommitted(CommittedIndexDelta),
    BaselineRefreshRequired { reason: BaselineRefreshReason },
}

#[derive(Debug, Clone, Copy, PartialEq, Eq, Structural)]
pub enum RuntimeIndexingHandoffOutcome {
    Clean,
    RecoveryRequired,
}

#[derive(Debug, Clone, Copy, PartialEq, Eq, Structural)]
pub struct RuntimeIndexingHandoff {
    pub outcome: RuntimeIndexingHandoffOutcome,
    pub last_committed_generation: u64,
}

/// How a handoff ends: recovery is required when the stop command could not be
/// sent, the worker did not join cleanly, or recovery was already latched.
pub fn handoff_outcome(command_sent: bool, worker_joined: bool, recovery_latched: bool) -> (r: RuntimeIndexingHandoffOutcome)
    ensures
        r == (if !command_sent || !worker_joined || recovery_latched {
            RuntimeIndexingHandoffOutcome::RecoveryRequired
        } else {
            RuntimeIndexingHandoffOutcome::Clean
        }),
{
    if !command_sent || !worker_joined || recovery_latched {
        RuntimeIndexingHandoffOutcome::RecoveryRequired
    } else {
        RuntimeIndexingHandoffOutcome::Clean
    }
}

/// A platform rescan is answered by recalibrating its roots, not by a baseline
/// recovery: the watcher reported an overflow and no failure.
pub fn watcher_rescan_requires_calibration(has_failure: bool, degradation: Option<IndexDegradationCode>) -> (r: bool)
    ensures
        r == (!has_failure && degradation == Some(IndexDegradationCode::WatcherOverflow)),
{
    !has_failure && match degradation {
        Some(IndexDegradationCode::WatcherOverflow) => true,
        _ => false,
    }
}

/// The delta is too large once either threshold is reached.
pub fn delta_safety_limit_reached(entry_count: usize, estimated_bytes: usize) -> (r: bool)
    ensures
        r == (entry_count >= MAX_DELTA_ENTRIES || estimated_bytes >= MAX_DELTA_BYTES),
{
    entry_count >= MAX_DELTA_ENTRIES || estimated_bytes >= MAX_DELTA_BYTES
}

/// The baseline refresh request a delta of this size calls for, if any.
pub fn baseline_refresh_event_for_delta_state(entry_count: usize, estimated_bytes: usize) -> (r: Option<RuntimeIndexingEvent>)
    ensures
        (entry_count >= MAX_DELTA_ENTRIES || estimated_bytes >= MAX_DELTA_BYTES) ==> (r matches Some(
            RuntimeIndexingEvent::BaselineRefreshRequired { reason },
        ) && reason == BaselineRefreshReason::DeltaSafetyLimit),
        !(entry_count >= MAX_DELTA_ENTRIES || estimated_bytes >= MAX_DELTA_BYTES) ==> r is None,
{
    if delta_safety_limit_reached(entry_count, estimated_bytes) {
        Some(RuntimeIndexingEvent::BaselineRefreshRequired { reason: BaselineRefreshReason::DeltaSafetyLimit })
    } else {
        None
    }
}

/// How the incremental index stands after a batch.
#[derive(Debug, Clone, Copy, PartialEq, Eq, Structural)]
pub enum IncrementalPhase {
    Watching,
    Degraded,
}

/// What a batch's targeted scan came to: cancelled, failed as a whole, or
/// scanned, with the configured roots below which something failed and
/// whether anything durable changed.
#[derive(Debug, Clone)]
pub enum BatchScanOutcome {
    Cancelled,
    IoFailed,
    Scanned { failed_roots: Vec<String>, durable_changes: bool },
}

/// What the service does once a batch was scanned.
#[derive(Debug, Clone, Copy, PartialEq, Eq, Structural)]
pub enum CommitDecision {
    /// The scan was cancelled: nothing changes.
    Abandon,
    /// Report a calibration failure with this many dirty roots, and request a
    /// baseline refresh when `request_refresh` is set.
    CalibrationFailure { dirty_roots: usize, request_refresh: bool },
    /// Nothing durable changed: publish this status.
    Publish { phase: IncrementalPhase, degradation: Option<IndexDegradationCode>, dirty_roots: usize },
    /// Write the delta to the journal; `failed_roots` is how many roots failed.
    Commit { failed_roots: usize },
}

/// The roots still degraded and what to do next.
pub struct CommitPlan {
    pub degraded_roots: StrSet,
    /// The roots dirty for this batch: those degraded before it, those it
    /// attempted, and those that failed.
    pub dirty_roots: StrSet,
    pub decision: CommitDecision,
}

pub open spec fn names(list: Seq<String>) -> Set<Seq<char>> {
    list.map_values(|s: String| s@).to_set()
}

/// The degraded roots after a scan: the attempted roots that did not fail are
/// no longer degraded, and the failed ones are.
pub open spec fn degraded_after_scan(
    degraded: Set<Seq<char>>,
    attempted: Set<Seq<char>>,
    roots: Set<Seq<char>>,
    outcome: BatchScanOutcome,
) -> Set<Seq<char>> {
    match outcome {
        BatchScanOutcome::Cancelled => degraded,
        BatchScanOutcome::IoFailed => degraded.union(roots),
        BatchScanOutcome::Scanned { failed_roots, .. } => degraded.difference(attempted.difference(names(failed_roots@)))
            .union(names(failed_roots@)),
    }
}

/// What the service does after a scan, over the degraded roots before it
/// (`degraded`), the dirty roots the batch attempted, and the configured roots.
pub open spec fn commit_decision_spec(
    degraded: Set<Seq<char>>,
    attempted: Set<Seq<char>>,
    roots: Set<Seq<char>>,
    outcome: BatchScanOutcome,
) -> CommitDecision {
    let after = degraded_after_scan(degraded, attempted, roots, outcome);
    match outcome {
        BatchScanOutcome::Cancelled => CommitDecision::Abandon,
        BatchScanOutcome::IoFailed => CommitDecision::CalibrationFailure {
            dirty_roots: after.len() as usize,
            request_refresh: true,
        },
        BatchScanOutcome::Scanned { failed_roots, durable_changes } => {
            let failed = names(failed_roots@);
            if durable_changes {
                CommitDecision::Commit { failed_roots: failed.len() as usize }
            } else if failed.len() > 0 {
                CommitDecision::CalibrationFailure {
                    dirty_roots: degraded.union(attempted).union(failed).len() as usize,
                    request_refresh: false,
                }
            } else {
                CommitDecision::Publish {
                    phase: if after.len() == 0 {
                        IncrementalPhase::Watching
                    } else {
                        IncrementalPhase::Degraded
                    },
                    degradation: if after.len() > 0 {
                        Some(IndexDegradationCode::CalibrationFailed)
                    } else {
                        None
                    },
                    dirty_roots: after.len() as usize,
                }
            }
        },
    }
}

proof fn lemma_names_take_next(list: Seq<String>, i: int)
    requires
        0 <= i < list.len(),
    ensures
        names(list.take(i + 1)) == names(list.take(i)).insert(list[i]@),
{
    let a = list.take(i + 1).map_values(|s: String| s@);
    let b = list.take(i).map_values(|s: String| s@);
    assert(a =~= b.push(list[i]@));
    assert forall|x: Seq<char>| a.to_set().contains(x) <==> #[trigger] b.to_set().insert(list[i]@).contains(x) by {
        if a.contains(x) {
            let k = choose|k: int| 0 <= k < a.len() && a[k] == x;
            if k < b.len() {
                assert(b[k] == x);
            }
        }
        if b.contains(x) {
            let k = choose|k: int| 0 <= k < b.len() && b[k] == x;
            assert(a[k] == x);
        }
        if x == list[i]@ {
            assert(a[i] == x);
        }
    }
    assert(a.to_set() =~= b.to_set().insert(list[i]@));
}

/// Adds each listed name to the set.
fn insert_all(set: &mut StrSet, list: &Vec<String>)
    ensures
        final(set).members() == old(set).members().union(names(list@)),
{
    let mut i: usize = 0;
    while i < list.len()
        invariant
            i <= list@.len(),
            set.members() == old(set).members().union(names(list@.take(i as int))),
        decreases list@.len() - i,
    {
        proof {
            lemma_names_take_next(list@, i as int);
        }
        set.insert(list[i].clone());
        i = i + 1;
    }
    proof {
        assert(list@.take(list@.len() as int) =~= list@);
    }
}

/// The decisions after a batch's targeted scan: which roots stay degraded,
/// which were dirty for the batch, and whether the delta is committed, a
/// status published or a calibration failure reported.
pub fn commit_plan(degraded: &Vec<String>, attempted: &Vec<String>, roots: &Vec<String>, outcome: &BatchScanOutcome) -> (r: CommitPlan)
    ensures
        r.degraded_roots.members() == degraded_after_scan(names(degraded@), names(attempted@), names(roots@), *outcome),
        r.dirty_roots.members() == match *outcome {
            BatchScanOutcome::Scanned { failed_roots, .. } => names(degraded@).union(names(attempted@)).union(
                names(failed_roots@),
            ),
            _ => names(degraded@).union(names(attempted@)),
        },
        r.decision == commit_decision_spec(names(degraded@), names(attempted@), names(roots@), *outcome),
{
    let mut before = StrSet::new();
    insert_all(&mut before, degraded);
    let mut dirty = StrSet::new();
    insert_all(&mut dirty, degraded);
    insert_all(&mut dirty, attempted);
    assert(names(degraded@).union(names(attempted@)) =~= Set::<Seq<char>>::empty().union(names(degraded@)).union(
        names(attempted@),
    ));
    match outcome {
        BatchScanOutcome::Cancelled => {
            assert(before.members() =~= names(degraded@));
            CommitPlan { degraded_roots: before, dirty_roots: dirty, decision: CommitDecision::Abandon }
        },
        BatchScanOutcome::IoFailed => {
            let mut after = before;
            insert_all(&mut after, roots);
            assert(after.members() =~= names(degraded@).union(names(roots@)));
            let n = after.len();
            CommitPlan {
                degraded_roots: after,
                dirty_roots: dirty,
                decision: CommitDecision::CalibrationFailure { dirty_roots: n, request_refresh: true },
            }
        },
        BatchScanOutcome::Scanned { failed_roots, durable_changes } => {
            let mut failed = StrSet::new();
            insert_all(&mut failed, failed_roots);
            assert(failed.members() =~= names(failed_roots@));
            let mut after = before;
            let mut i: usize = 0;
            while i < attempted.len()
                invariant
                    i <= attempted@.len(),
                    failed.members() == names(failed_roots@),
                    after.members() == names(degraded@).difference(
                        names(attempted@.take(i as int)).difference(names(failed_roots@)),
                    ),
                decreases attempted@.len() - i,
            {
                proof {
                    lemma_names_take_next(attempted@, i as int);
                }
                if !failed.contains(attempted[i].as_str()) {
                    after.remove(attempted[i].as_str());
                }
                assert(after.members() =~= names(degraded@).difference(
                    names(attempted@.take(i + 1)).difference(names(failed_roots@)),
                ));
                i = i + 1;
            }
            proof {
                assert(attempted@.take(attempted@.len() as int) =~= attempted@);
            }
            insert_all(&mut after, failed_roots);
            insert_all(&mut dirty, failed_roots);
            let remaining = after.len();
            let failed_count = failed.len();
            let decision = if *durable_changes {
                CommitDecision::Commit { failed_roots: failed_count }
            } else if failed_count > 0 {
                CommitDecision::CalibrationFailure { dirty_roots: dirty.len(), request_refresh: false }
            } else {
                CommitDecision::Publish {
                    phase: if remaining == 0 {
                        IncrementalPhase::Watching
                    } else {
                        IncrementalPhase::Degraded
                    },
                    degradation: if remaining > 0 {
                        Some(IndexDegradationCode::CalibrationFailed)
                    } else {
                        None
                    },
                    dirty_roots: remaining,
                }
            };
            CommitPlan { degraded_roots: after, dirty_roots: dirty, decision }
        },
    }
}

/// A drained batch is scanned when it changed or removed a path or some root
/// is dirty; otherwise only the status is published.
pub fn batch_needs_scan(changed_paths: usize, removed_paths: usize, dirty_roots: usize) -> (r: bool)
    ensures
        r == (changed_paths + removed_paths > 0 || dirty_roots > 0),
{
    changed_paths.saturating_add(removed_paths) != 0 || dirty_roots != 0
}

/// What follows the journal write of a batch's delta.
#[derive(Debug, Clone, Copy, PartialEq, Eq, Structural)]
pub enum AfterCommit {
    /// The write failed: every configured root becomes degraded, the journal
    /// failure is published, a baseline refresh for dirty roots is requested,
    /// and a calibration failure reported when roots failed.
    WriteFailed { report_calibration_failure: bool },
    /// The delta was committed: the status takes this phase and dirty-root
    /// count, the degradation is cleared when no root is degraded, the
    /// generation advances, and a calibration failure is reported when roots
    /// failed.
    Committed { phase: IncrementalPhase, clear_degradation: bool, dirty_roots: usize, report_calibration_failure: bool },
}

pub fn after_commit(written: bool, remaining_degraded: usize, failed_roots: usize) -> (r: AfterCommit)
    ensures
        !written ==> r == (AfterCommit::WriteFailed { report_calibration_failure: failed_roots > 0 }),
        written ==> r == (AfterCommit::Committed {
            phase: if remaining_degraded == 0 {
                IncrementalPhase::Watching
            } else {
                IncrementalPhase::Degraded
            },
            clear_degradation: remaining_degraded == 0,
            dirty_roots: remaining_degraded,
            report_calibration_failure: failed_roots > 0,
        }),
{
    if !written {
        AfterCommit::WriteFailed { report_calibration_failure: failed_roots > 0 }
    } else {
        AfterCommit::Committed {
            phase: if remaining_degraded == 0 {
                IncrementalPhase::Watching
            } else {
                IncrementalPhase::Degraded
            },
            clear_degradation: remaining_degraded == 0,
            dirty_roots: remaining_degraded,
            report_calibration_failure: failed_roots > 0,
        }
    }
}

} // verus!
