use vstd::prelude::*;

verus! {

/// Everything that can end a supervisor, or the construction of one.
#[derive(Clone, Copy, Debug, PartialEq, Eq, Structural)]
pub enum SupervisorError {
    /// The flags were rejected (a period of zero).
    InvalidConfiguration,
    /// Two child specifications share one id.
    DuplicateChildId,
    /// A child could not be launched while the tree was starting.
    StartupFailed,
    /// Waiting for the children failed; the view of the tree is lost.
    WaitFailed,
    /// More restarts were needed within the period than the intensity allows.
    RestartIntensityExceeded,
    /// The host asked the supervisor to stop.
    Interrupted,
    /// A worker's own initialisation or finalisation failed.
    WorkerFailed,
}

} // verus!
