//! The decisions of the monitor that waits for missing index roots to return:
//! after each probe it stops, dispatches readiness, or waits for the next poll.

use vstd::prelude::*;

verus! {

#[derive(Debug, Clone, PartialEq, Eq)]
pub enum MonitorExit {
    Ready,
    Cancelled,
    ProbeFailed(String),
    DispatchFailed(String),
    ThreadPanicked,
}

/// What the monitor does after looking at cancellation and a probe.
#[derive(Debug, Clone, PartialEq, Eq)]
pub enum MonitorStep {
    /// Stop with this outcome.
    Exit(MonitorExit),
    /// The roots are back: run the readiness callback.
    DispatchReady,
    /// Not yet: wait for the poll interval or cancellation.
    Wait,
}

/// One round of the monitor: a cancelled monitor stops without probing; a probe
/// that finds the roots dispatches readiness, one that fails stops with its
/// error, and one that finds nothing waits.
pub fn monitor_step(cancelled: bool, probe: Option<Result<bool, String>>) -> (r: MonitorStep)
    requires
        cancelled || probe is Some,
    ensures
        cancelled ==> r == MonitorStep::Exit(MonitorExit::Cancelled),
        !cancelled ==> match probe {
            Some(Ok(true)) => r == MonitorStep::DispatchReady,
            Some(Ok(false)) => r == MonitorStep::Wait,
            Some(Err(e)) => r == MonitorStep::Exit(MonitorExit::ProbeFailed(e)),
            None => false,
        },
{
    if cancelled {
        return MonitorStep::Exit(MonitorExit::Cancelled);
    }
    match probe {
        Some(Ok(true)) => MonitorStep::DispatchReady,
        Some(Ok(false)) => MonitorStep::Wait,
        Some(Err(e)) => MonitorStep::Exit(MonitorExit::ProbeFailed(e)),
        None => MonitorStep::Exit(MonitorExit::Cancelled),
    }
}

/// The outcome of dispatching readiness: ready, or the callback's error.
pub fn dispatch_outcome(result: Result<(), String>) -> (r: MonitorExit)
    ensures
        match result {
            Ok(()) => r == MonitorExit::Ready,
            Err(e) => r == MonitorExit::DispatchFailed(e),
        },
{
    match result {
        Ok(()) => MonitorExit::Ready,
        Err(e) => MonitorExit::DispatchFailed(e),
    }
}

/// The outcome a join reports: the worker's, a panic when it panicked, and
/// cancellation when there was no worker and no recorded outcome.
pub fn joined_outcome(worker: Option<Option<MonitorExit>>, recorded: Option<MonitorExit>) -> (r: MonitorExit)
    ensures
        match worker {
            Some(Some(e)) => r == e,
            Some(None) => r == MonitorExit::ThreadPanicked,
            None => match recorded {
                Some(e) => r == e,
                None => r == MonitorExit::Cancelled,
            },
        },
{
    match worker {
        Some(Some(e)) => e,
        Some(None) => MonitorExit::ThreadPanicked,
        None => match recorded {
            Some(e) => e,
            None => MonitorExit::Cancelled,
        },
    }
}

} // verus!
