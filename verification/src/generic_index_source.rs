//! The portable index source's decisions: whether a scan may start, which roots
//! it covers, and whether it resumes a directory frontier or streams a walk.

use vstd::prelude::*;
use crate::index_entry::{IndexScanStats, PathComparisonMode};
use crate::index_scanner::IndexScanPlan;
use crate::index_source::{
    compress_covered_roots_for_mode, native_key, uncovered_roots, IndexSourceError, IndexSourceKind, IndexSourceResume,
};
use crate::paths::strings_view;
use crate::text::owned;

verus! {

broadcast use vstd::string::group_string_axioms;

/// How the portable source walks its roots.
#[derive(Debug, Clone, PartialEq, Eq)]
pub enum GenericScanMode {
    /// One root without project ignore handling: a resumable directory frontier.
    Resumable(IndexSourceResume),
    /// Anything else: one streaming walk of every root.
    Streaming,
}

/// How a scan of the portable source starts: the plan with covered roots
/// removed, the root reported in progress, and the walk.
#[derive(Debug, Clone, PartialEq, Eq)]
pub struct GenericScanStart {
    pub plan: IndexScanPlan,
    pub current_root: Option<String>,
    pub mode: GenericScanMode,
}

/// The message of a resume the portable source cannot honour.
pub open spec fn resume_refusal() -> Seq<char> {
    "generic resume requires exactly one root and project ignore handling disabled"@
}

/// The roots a scan covers once covered roots are removed with `mode`'s keys.
pub open spec fn compressed_roots(roots: Seq<String>, mode: PathComparisonMode) -> Seq<Seq<char>> {
    uncovered_roots(
        strings_view(roots),
        Seq::new(roots.len(), |i: int| native_key(roots[i]@, mode)),
        roots.len() as int,
    )
}

/// A resume the portable source refuses: it needs exactly one root and project
/// ignores off.
pub open spec fn refuses_resume(plan: IndexScanPlan, resume: Option<IndexSourceResume>, mode: PathComparisonMode) -> bool {
    resume is Some && (plan.respect_project_ignores || compressed_roots(plan.include_roots@, mode).len() != 1)
}

/// `start` describes how a scan of `plan` starts: its roots compressed, the first
/// reported in progress, and a resumable walk (the given resume, or a fresh one
/// of the single root) for one root without project ignores, else a stream.
pub open spec fn describes_start(
    start: GenericScanStart,
    plan: IndexScanPlan,
    resume: Option<IndexSourceResume>,
    mode: PathComparisonMode,
) -> bool {
    let roots = compressed_roots(plan.include_roots@, mode);
    &&& strings_view(start.plan.include_roots@) == roots
    &&& start.plan.exclude_dirs == plan.exclude_dirs
    &&& start.plan.exclude_patterns == plan.exclude_patterns
    &&& start.plan.respect_project_ignores == plan.respect_project_ignores
    &&& start.plan.stage == plan.stage
    &&& (if roots.len() > 0 {
        start.current_root matches Some(c) && c@ == roots[0]
    } else {
        start.current_root is None
    })
    &&& (if !plan.respect_project_ignores && roots.len() == 1 {
        start.mode matches GenericScanMode::Resumable(res) && match resume {
            Some(given) => res == given,
            None => strings_view(res.pending_directories@) == seq![roots[0]] && res.completed_stats
                == (IndexScanStats { scanned: 0, accepted: 0, skipped: 0, failures: 0 }),
        }
    } else {
        start.mode == GenericScanMode::Streaming
    })
}

/// The outcome of starting a scan with `mode`'s keys: cancelled, a refused
/// resume, or the described start.
pub open spec fn start_outcome(
    r: Result<GenericScanStart, IndexSourceError>,
    plan: IndexScanPlan,
    resume: Option<IndexSourceResume>,
    cancelled: bool,
    mode: PathComparisonMode,
) -> bool {
    if cancelled {
        r == Err::<GenericScanStart, IndexSourceError>(IndexSourceError::Cancelled)
    } else if refuses_resume(plan, resume, mode) {
        r matches Err(IndexSourceError::Io(m)) && m@ == resume_refusal()
    } else {
        r matches Ok(start) && describes_start(start, plan, resume, mode)
    }
}

/// The portable source, which walks roots with the ignore-aware scanner.
#[derive(Debug, Clone, Default)]
pub struct GenericIndexSource;

impl GenericIndexSource {
    pub fn kind(&self) -> (r: IndexSourceKind)
        ensures
            r == IndexSourceKind::Generic,
    {
        IndexSourceKind::Generic
    }

    /// Decides how a scan starts, comparing roots with `mode`'s keys.
    pub fn scan_start_for_mode(
        &self,
        plan: IndexScanPlan,
        resume: Option<IndexSourceResume>,
        cancelled: bool,
        mode: PathComparisonMode,
    ) -> (r: Result<GenericScanStart, IndexSourceError>)
        ensures
            start_outcome(r, plan, resume, cancelled, mode),
    {
        if cancelled {
            return Err(IndexSourceError::Cancelled);
        }
        let ghost original = plan;
        let roots = compress_covered_roots_for_mode(plan.include_roots.as_slice(), mode);
        let IndexScanPlan { include_roots: _, exclude_dirs, exclude_patterns, respect_project_ignores, stage } = plan;
        let plan = IndexScanPlan { include_roots: roots, exclude_dirs, exclude_patterns, respect_project_ignores, stage };
        if resume.is_some() && (plan.respect_project_ignores || plan.include_roots.len() != 1) {
            return Err(IndexSourceError::Io(owned(
                "generic resume requires exactly one root and project ignore handling disabled",
            )));
        }
        let current_root = if plan.include_roots.len() > 0 {
            Some(plan.include_roots[0].clone())
        } else {
            None
        };
        let walk = if !plan.respect_project_ignores && plan.include_roots.len() == 1 {
            match resume {
                Some(r) => GenericScanMode::Resumable(r),
                None => {
                    let fresh = IndexSourceResume::fresh(plan.include_roots[0].clone());
                    proof {
                        assert(strings_view(fresh.pending_directories@) =~= seq![strings_view(plan.include_roots@)[0]]);
                    }
                    GenericScanMode::Resumable(fresh)
                },
            }
        } else {
            GenericScanMode::Streaming
        };
        let start = GenericScanStart { plan, current_root, mode: walk };
        proof {
            assert(describes_start(start, original, resume, mode));
        }
        Ok(start)
    }

    /// Decides how a scan starts, with this platform's root keys.
    pub fn scan_start(
        &self,
        plan: IndexScanPlan,
        resume: Option<IndexSourceResume>,
        cancelled: bool,
    ) -> (r: Result<GenericScanStart, IndexSourceError>)
        ensures
            start_outcome(r, plan, resume, cancelled, PathComparisonMode::Native) || start_outcome(
                r,
                plan,
                resume,
                cancelled,
                PathComparisonMode::Windows,
            ),
    {
        let mode = PathComparisonMode::native();
        self.scan_start_for_mode(plan, resume, cancelled, mode)
    }
}

} // verus!
