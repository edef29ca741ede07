//! Decisions that order baseline refreshes against the runtime journal: which
//! generation a tail starts from, whether a refresh request starts, joins or queues,
//! and the calibration session that precedes watching.

use vstd::prelude::*;

verus! {

/// The generation at which an old runtime service was joined.
#[derive(Debug, Clone, Copy, PartialEq, Eq, Structural)]
pub struct RevisionCaptureFence {
    old_service_join_generation: u64,
}

impl RevisionCaptureFence {
    pub closed spec fn join_generation(&self) -> u64 {
        self.old_service_join_generation
    }

    pub fn after_old_service_join(generation: u64) -> (r: Self)
        ensures
            r.join_generation() == generation,
    {
        RevisionCaptureFence { old_service_join_generation: generation }
    }
}

pub open spec fn max_u64(a: u64, b: u64) -> u64 {
    if a >= b { a } else { b }
}

/// The journal tail compatible with a scan starts at the later of the scan start and
/// the old service's join.
pub fn compatible_tail_start_generation(scan_start_generation: u64, fence: Option<RevisionCaptureFence>) -> (r: u64)
    ensures
        r == match fence {
            Some(f) => max_u64(f.join_generation(), scan_start_generation),
            None => scan_start_generation,
        },
{
    let candidate = match fence {
        Some(f) => f.old_service_join_generation,
        None => scan_start_generation,
    };
    if candidate >= scan_start_generation {
        candidate
    } else {
        scan_start_generation
    }
}

#[derive(Debug, Clone, Copy, PartialEq, Eq, Structural)]
pub enum RefreshRequestReason {
    DeltaSafetyLimit,
    DirtyRoots,
}

#[derive(Debug, Clone, Copy, PartialEq, Eq, Structural)]
pub enum RefreshRequestDecision {
    Start,
    AbsorbedByActiveRefresh,
    QueueRerun,
}

/// Without an active refresh a request starts one; during a refresh the delta
/// safety limit is absorbed and dirty roots queue a rerun.
pub open spec fn refresh_request_decision_spec(refresh_active: bool, reason: RefreshRequestReason) -> RefreshRequestDecision {
    if !refresh_active {
        RefreshRequestDecision::Start
    } else if reason == RefreshRequestReason::DeltaSafetyLimit {
        RefreshRequestDecision::AbsorbedByActiveRefresh
    } else {
        RefreshRequestDecision::QueueRerun
    }
}

pub fn refresh_request_decision(refresh_active: bool, reason: RefreshRequestReason) -> (r: RefreshRequestDecision)
    ensures
        r == refresh_request_decision_spec(refresh_active, reason),
{
    match (refresh_active, reason) {
        (false, _) => RefreshRequestDecision::Start,
        (true, RefreshRequestReason::DeltaSafetyLimit) => RefreshRequestDecision::AbsorbedByActiveRefresh,
        (true, RefreshRequestReason::DirtyRoots) => RefreshRequestDecision::QueueRerun,
    }
}

/// The largest of the tail generations and the baseline generation.
pub open spec fn max_generation_spec(baseline: u64, tail: Seq<u64>) -> u64
    decreases tail.len(),
{
    if tail.len() == 0 {
        baseline
    } else {
        max_u64(max_generation_spec(baseline, tail.drop_last()), tail.last())
    }
}

/// A new baseline installs at the newest generation it has seen.
pub fn authoritative_install_generation(baseline_generation: u64, tail_generations: &[u64]) -> (r: u64)
    ensures
        r == max_generation_spec(baseline_generation, tail_generations@),
        r >= baseline_generation,
        forall|i: int| 0 <= i < tail_generations@.len() ==> r >= tail_generations@[i],
{
    let mut best = baseline_generation;
    let mut i: usize = 0;
    while i < tail_generations.len()
        invariant
            i <= tail_generations@.len(),
            best == max_generation_spec(baseline_generation, tail_generations@.take(i as int)),
            best >= baseline_generation,
            forall|k: int| 0 <= k < i ==> best >= tail_generations@[k],
        decreases tail_generations@.len() - i,
    {
        assert(tail_generations@.take(i + 1).drop_last() =~= tail_generations@.take(i as int));
        if tail_generations[i] > best {
            best = tail_generations[i];
        }
        i = i + 1;
    }
    assert(tail_generations@.take(tail_generations@.len() as int) =~= tail_generations@);
    best
}

#[derive(Debug, Clone, Copy, PartialEq, Eq, Structural)]
pub enum StartupReadiness {
    Ready,
    NeedsCalibration,
}

/// Startup is ready only when the manifest covers the roots and every required root
/// is available.
pub fn startup_readiness(required_roots_available: &[bool], manifest_covers_roots: bool) -> (r: StartupReadiness)
    ensures
        r == (if manifest_covers_roots && (forall|i: int|
            0 <= i < required_roots_available@.len() ==> required_roots_available@[i]) {
            StartupReadiness::Ready
        } else {
            StartupReadiness::NeedsCalibration
        }),
{
    if !manifest_covers_roots {
        return StartupReadiness::NeedsCalibration;
    }
    let mut i: usize = 0;
    while i < required_roots_available.len()
        invariant
            i <= required_roots_available@.len(),
            forall|k: int| 0 <= k < i ==> required_roots_available@[k],
        decreases required_roots_available@.len() - i,
    {
        if !required_roots_available[i] {
            return StartupReadiness::NeedsCalibration;
        }
        i = i + 1;
    }
    StartupReadiness::Ready
}

#[derive(Debug, Clone, Copy, PartialEq, Eq, Structural)]
pub enum CalibrationPhase {
    Preparing,
    Capturing,
    Calibrated,
    Fenced,
    Watching,
    Degraded,
}

#[derive(Debug, Clone, Copy, PartialEq, Eq, Structural)]
pub enum CalibrationTransitionError {
    CaptureNotRegistered,
    CalibrationIncomplete,
    FenceIncomplete,
    InvalidGeneration,
    Terminal,
}

#[derive(Debug, Clone, Copy, PartialEq, Eq, Structural)]
pub enum RuntimeFailureKind {
    Watcher,
    Calibration,
    Storage,
    WorkerSpawn,
    Dispatch,
    BaselinePersistence,
    Monitor,
}

#[derive(Debug, Clone, Copy, PartialEq, Eq, Structural)]
pub struct RuntimeFailureApplication {
    pub revision: u64,
    pub kind: RuntimeFailureKind,
    pub preserve_live_view: bool,
    pub schedule_recovery: bool,
}

impl RuntimeFailureApplication {
    /// A failure that keeps the live view and schedules recovery.
    pub fn degraded(revision: u64, kind: RuntimeFailureKind) -> (r: Self)
        ensures
            r == (RuntimeFailureApplication {
                revision,
                kind,
                preserve_live_view: true,
                schedule_recovery: true,
            }),
    {
        RuntimeFailureApplication { revision, kind, preserve_live_view: true, schedule_recovery: true }
    }
}

/// The calibration of one runtime revision: capture, calibrate, fence, then watch;
/// a failure is terminal.
#[derive(Debug, Clone, PartialEq, Eq, Structural)]
pub struct RuntimeCalibrationSession {
    revision: u64,
    starting_generation: u64,
    calibration_generation: Option<u64>,
    authoritative_generation: Option<u64>,
    phase: CalibrationPhase,
}

impl RuntimeCalibrationSession {
    pub closed spec fn revision_spec(&self) -> u64 {
        self.revision
    }

    pub closed spec fn starting_generation_spec(&self) -> u64 {
        self.starting_generation
    }

    pub closed spec fn calibration_generation_spec(&self) -> Option<u64> {
        self.calibration_generation
    }

    pub closed spec fn authoritative_generation_spec(&self) -> Option<u64> {
        self.authoritative_generation
    }

    pub closed spec fn phase_spec(&self) -> CalibrationPhase {
        self.phase
    }

    /// The session's invariant: a calibration generation is known from Calibrated
    /// on and never precedes the starting generation; while fenced or watching the
    /// fence generation is known and never precedes the calibration generation.
    pub closed spec fn wf(&self) -> bool {
        &&& (self.phase == CalibrationPhase::Calibrated || self.phase == CalibrationPhase::Fenced
            || self.phase == CalibrationPhase::Watching) ==> self.calibration_generation.is_some()
        &&& (self.phase == CalibrationPhase::Fenced || self.phase == CalibrationPhase::Watching)
            ==> self.authoritative_generation.is_some()
        &&& self.calibration_generation matches Some(c) ==> c >= self.starting_generation
        &&& (self.phase == CalibrationPhase::Fenced || self.phase == CalibrationPhase::Watching) ==> (
        self.calibration_generation matches Some(c) && self.authoritative_generation matches Some(a)
            && a >= c)
    }

    pub fn new(revision: u64, starting_generation: u64) -> (r: Self)
        ensures
            r.wf(),
            r.revision_spec() == revision,
            r.starting_generation_spec() == starting_generation,
            r.calibration_generation_spec().is_none(),
            r.authoritative_generation_spec().is_none(),
            r.phase_spec() == CalibrationPhase::Preparing,
    {
        RuntimeCalibrationSession {
            revision,
            starting_generation,
            calibration_generation: None,
            authoritative_generation: None,
            phase: CalibrationPhase::Preparing,
        }
    }

    pub fn revision(&self) -> (r: u64)
        ensures
            r == self.revision_spec(),
    {
        self.revision
    }

    pub fn phase(&self) -> (r: CalibrationPhase)
        ensures
            r == self.phase_spec(),
    {
        self.phase
    }

    pub fn authoritative_generation(&self) -> (r: Option<u64>)
        ensures
            r == self.authoritative_generation_spec(),
    {
        self.authoritative_generation
    }

    /// Capture registration moves any live, non-watching session to Capturing.
    pub fn mark_capture_registered(&mut self) -> (r: Result<(), CalibrationTransitionError>)
        requires
            old(self).wf(),
        ensures
            final(self).wf(),
            final(self).revision_spec() == old(self).revision_spec(),
            final(self).starting_generation_spec() == old(self).starting_generation_spec(),
            final(self).calibration_generation_spec() == old(self).calibration_generation_spec(),
            final(self).authoritative_generation_spec() == old(self).authoritative_generation_spec(),
            (old(self).phase_spec() == CalibrationPhase::Degraded || old(self).phase_spec()
                == CalibrationPhase::Watching) ==> {
                &&& r == Err::<(), CalibrationTransitionError>(CalibrationTransitionError::Terminal)
                &&& final(self).phase_spec() == old(self).phase_spec()
            },
            !(old(self).phase_spec() == CalibrationPhase::Degraded || old(self).phase_spec()
                == CalibrationPhase::Watching) ==> {
                &&& r == Ok::<(), CalibrationTransitionError>(())
                &&& final(self).phase_spec() == CalibrationPhase::Capturing
            },
    {
        if self.phase == CalibrationPhase::Degraded || self.phase == CalibrationPhase::Watching {
            return Err(CalibrationTransitionError::Terminal);
        }
        self.phase = CalibrationPhase::Capturing;
        Ok(())
    }

    /// Calibration completes only while capturing, at a generation no older than the start.
    pub fn mark_calibration_complete(&mut self, generation: u64) -> (r: Result<(), CalibrationTransitionError>)
        requires
            old(self).wf(),
        ensures
            final(self).wf(),
            final(self).revision_spec() == old(self).revision_spec(),
            final(self).starting_generation_spec() == old(self).starting_generation_spec(),
            final(self).authoritative_generation_spec() == old(self).authoritative_generation_spec(),
            r == (if old(self).phase_spec() == CalibrationPhase::Degraded {
                Err(CalibrationTransitionError::Terminal)
            } else if old(self).phase_spec() != CalibrationPhase::Capturing {
                Err(CalibrationTransitionError::CaptureNotRegistered)
            } else if generation < old(self).starting_generation_spec() {
                Err(CalibrationTransitionError::InvalidGeneration)
            } else {
                Ok(())
            }),
            r is Ok ==> {
                &&& final(self).phase_spec() == CalibrationPhase::Calibrated
                &&& final(self).calibration_generation_spec() == Some(generation)
            },
            r is Err ==> {
                &&& final(self).phase_spec() == old(self).phase_spec()
                &&& final(self).calibration_generation_spec() == old(self).calibration_generation_spec()
            },
    {
        if self.phase == CalibrationPhase::Degraded {
            return Err(CalibrationTransitionError::Terminal);
        }
        if self.phase != CalibrationPhase::Capturing {
            return Err(CalibrationTransitionError::CaptureNotRegistered);
        }
        if generation < self.starting_generation {
            return Err(CalibrationTransitionError::InvalidGeneration);
        }
        self.calibration_generation = Some(generation);
        self.phase = CalibrationPhase::Calibrated;
        Ok(())
    }

    /// The fence is set only after calibration, at a generation no older than it.
    pub fn mark_fenced(&mut self, generation: u64) -> (r: Result<(), CalibrationTransitionError>)
        requires
            old(self).wf(),
        ensures
            final(self).wf(),
            final(self).revision_spec() == old(self).revision_spec(),
            final(self).starting_generation_spec() == old(self).starting_generation_spec(),
            final(self).calibration_generation_spec() == old(self).calibration_generation_spec(),
            r == (if old(self).phase_spec() == CalibrationPhase::Degraded {
                Err(CalibrationTransitionError::Terminal)
            } else if old(self).calibration_generation_spec().is_none() {
                Err(CalibrationTransitionError::CalibrationIncomplete)
            } else if old(self).phase_spec() != CalibrationPhase::Calibrated || generation
                < old(self).calibration_generation_spec().unwrap() {
                Err(CalibrationTransitionError::InvalidGeneration)
            } else {
                Ok(())
            }),
            r is Ok ==> {
                &&& final(self).phase_spec() == CalibrationPhase::Fenced
                &&& final(self).authoritative_generation_spec() == Some(generation)
            },
            r is Err ==> {
                &&& final(self).phase_spec() == old(self).phase_spec()
                &&& final(self).authoritative_generation_spec() == old(self).authoritative_generation_spec()
            },
    {
        if self.phase == CalibrationPhase::Degraded {
            return Err(CalibrationTransitionError::Terminal);
        }
        let calibration_generation = match self.calibration_generation {
            Some(g) => g,
            None => {
                return Err(CalibrationTransitionError::CalibrationIncomplete);
            },
        };
        if self.phase != CalibrationPhase::Calibrated || generation < calibration_generation {
            return Err(CalibrationTransitionError::InvalidGeneration);
        }
        self.authoritative_generation = Some(generation);
        self.phase = CalibrationPhase::Fenced;
        Ok(())
    }

    /// Watching starts only from Fenced; each earlier phase names what is missing.
    pub fn mark_watching(&mut self) -> (r: Result<(), CalibrationTransitionError>)
        requires
            old(self).wf(),
        ensures
            final(self).wf(),
            final(self).revision_spec() == old(self).revision_spec(),
            final(self).starting_generation_spec() == old(self).starting_generation_spec(),
            final(self).calibration_generation_spec() == old(self).calibration_generation_spec(),
            final(self).authoritative_generation_spec() == old(self).authoritative_generation_spec(),
            r == match old(self).phase_spec() {
                CalibrationPhase::Preparing => Err(CalibrationTransitionError::CaptureNotRegistered),
                CalibrationPhase::Capturing => Err(CalibrationTransitionError::CalibrationIncomplete),
                CalibrationPhase::Calibrated => Err(CalibrationTransitionError::FenceIncomplete),
                CalibrationPhase::Fenced => Ok(()),
                _ => Err(CalibrationTransitionError::Terminal),
            },
            final(self).phase_spec() == (if old(self).phase_spec() == CalibrationPhase::Fenced {
                CalibrationPhase::Watching
            } else {
                old(self).phase_spec()
            }),
    {
        match self.phase {
            CalibrationPhase::Preparing => Err(CalibrationTransitionError::CaptureNotRegistered),
            CalibrationPhase::Capturing => Err(CalibrationTransitionError::CalibrationIncomplete),
            CalibrationPhase::Calibrated => Err(CalibrationTransitionError::FenceIncomplete),
            CalibrationPhase::Fenced => {
                self.phase = CalibrationPhase::Watching;
                Ok(())
            },
            CalibrationPhase::Watching | CalibrationPhase::Degraded => Err(
                CalibrationTransitionError::Terminal,
            ),
        }
    }

    /// Degrades the session for good and describes how the failure is applied.
    pub fn fail(&mut self, kind: RuntimeFailureKind) -> (r: RuntimeFailureApplication)
        requires
            old(self).wf(),
        ensures
            final(self).wf(),
            final(self).phase_spec() == CalibrationPhase::Degraded,
            final(self).revision_spec() == old(self).revision_spec(),
            final(self).starting_generation_spec() == old(self).starting_generation_spec(),
            final(self).calibration_generation_spec() == old(self).calibration_generation_spec(),
            final(self).authoritative_generation_spec() == old(self).authoritative_generation_spec(),
            r == (RuntimeFailureApplication {
                revision: old(self).revision_spec(),
                kind,
                preserve_live_view: true,
                schedule_recovery: true,
            }),
    {
        self.phase = CalibrationPhase::Degraded;
        RuntimeFailureApplication::degraded(self.revision, kind)
    }
}

/// Law: a session is watching only after calibration and fencing, and then the
/// authoritative generation is no older than the calibration generation, which is
/// no older than the starting generation.
pub proof fn lemma_watching_generations_are_ordered(s: RuntimeCalibrationSession)
    requires
        s.wf(),
        s.phase_spec() == CalibrationPhase::Watching,
    ensures
        s.calibration_generation_spec().is_some(),
        s.authoritative_generation_spec().is_some(),
        s.starting_generation_spec() <= s.calibration_generation_spec().unwrap(),
        s.calibration_generation_spec().unwrap() <= s.authoritative_generation_spec().unwrap(),
{
}

/// At most one recovery claim per revision until that revision is cleared.
#[derive(Debug, Default, Clone, PartialEq, Eq, Structural)]
pub struct RevisionRecoveryLatch {
    claimed_revision: Option<u64>,
}

impl RevisionRecoveryLatch {
    pub closed spec fn claimed_spec(&self) -> Option<u64> {
        self.claimed_revision
    }

    /// Claims `revision`; false when it is already claimed.
    pub fn claim(&mut self, revision: u64) -> (r: bool)
        ensures
            r == (old(self).claimed_spec() != Some(revision)),
            final(self).claimed_spec() == Some(revision),
    {
        if self.claimed_revision == Some(revision) {
            return false;
        }
        self.claimed_revision = Some(revision);
        true
    }

    /// Releases `revision`; false, changing nothing, when another revision is held.
    pub fn clear(&mut self, revision: u64) -> (r: bool)
        ensures
            r == (old(self).claimed_spec() == Some(revision)),
            r ==> final(self).claimed_spec().is_none(),
            !r ==> final(self).claimed_spec() == old(self).claimed_spec(),
    {
        if self.claimed_revision != Some(revision) {
            return false;
        }
        self.claimed_revision = None;
        true
    }

    pub fn claimed_revision(&self) -> (r: Option<u64>)
        ensures
            r == self.claimed_spec(),
    {
        self.claimed_revision
    }
}

} // verus!
