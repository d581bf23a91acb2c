//! The lifecycle of Steam's background supervisor: disabled, dormant
//! until started, running, and stopped for good once shut down; and the
//! backoff between connection attempts.
use vstd::prelude::*;

verus! {

/// The supervisor's lifecycle, `C` being what controls a running one.
#[derive(Debug)]
pub enum RuntimeState<C> {
    Disabled,
    Dormant,
    Running(C),
    Stopped,
}

/// What asking to start reports.
#[derive(Clone, Copy, Debug, PartialEq, Eq)]
pub enum SteamBackgroundStart {
    Started,
    AlreadyRunning,
    Disabled,
    Stopped,
}

/// What a start request reports without starting anything; none when a
/// dormant supervisor is to be started.
pub open spec fn spec_start_outcome<C>(s: RuntimeState<C>) -> Option<SteamBackgroundStart> {
    match s {
        RuntimeState::Disabled => Some(SteamBackgroundStart::Disabled),
        RuntimeState::Running(_) => Some(SteamBackgroundStart::AlreadyRunning),
        RuntimeState::Stopped => Some(SteamBackgroundStart::Stopped),
        RuntimeState::Dormant => None,
    }
}

/// The state after a shutdown: a disabled supervisor stays disabled;
/// anything else stops.
pub open spec fn spec_after_shutdown<C>(s: RuntimeState<C>) -> RuntimeState<C> {
    match s {
        RuntimeState::Disabled => RuntimeState::Disabled,
        _ => RuntimeState::Stopped,
    }
}

impl<C> RuntimeState<C> {
    /// A supervisor that may be started, or one that never will.
    pub fn new(enabled: bool) -> (r: RuntimeState<C>)
        ensures
            enabled ==> r is Dormant,
            !enabled ==> r is Disabled,
    {
        if enabled {
            RuntimeState::Dormant
        } else {
            RuntimeState::Disabled
        }
    }

    /// What a start request reports without starting anything; none when
    /// the supervisor is dormant and is to be started.
    pub fn start_outcome(&self) -> (r: Option<SteamBackgroundStart>)
        ensures
            r == spec_start_outcome(*self),
    {
        match self {
            RuntimeState::Disabled => Some(SteamBackgroundStart::Disabled),
            RuntimeState::Running(_) => Some(SteamBackgroundStart::AlreadyRunning),
            RuntimeState::Stopped => Some(SteamBackgroundStart::Stopped),
            RuntimeState::Dormant => None,
        }
    }

    /// Shuts down: the state afterwards, and the control of a running
    /// supervisor, which is to be signalled and joined.
    pub fn shutdown(self) -> (r: (RuntimeState<C>, Option<C>))
        ensures
            r.0 == spec_after_shutdown(self),
            match self {
                RuntimeState::Running(c) => r.1 == Some(c),
                _ => r.1 is None,
            },
    {
        match self {
            RuntimeState::Running(control) => (RuntimeState::Stopped, Some(control)),
            RuntimeState::Disabled => (RuntimeState::Disabled, None),
            _ => (RuntimeState::Stopped, None),
        }
    }
}

/// Shutting down twice is shutting down once, and a shut-down supervisor
/// never starts again.
pub proof fn lemma_shutdown_is_terminal<C>(s: RuntimeState<C>)
    ensures
        spec_after_shutdown(spec_after_shutdown(s)) == spec_after_shutdown(s),
        spec_start_outcome(spec_after_shutdown(s)) is Some,
{
}

/// The next wait between connection attempts: doubled, capped at `max`.
pub open spec fn spec_next_retry_delay(delay_ms: u64, max_ms: u64) -> u64 {
    if delay_ms * 2 <= max_ms {
        (delay_ms * 2) as u64
    } else {
        max_ms
    }
}

pub fn next_retry_delay(delay_ms: u64, max_ms: u64) -> (r: u64)
    requires
        delay_ms * 2 <= u64::MAX,
    ensures
        r == spec_next_retry_delay(delay_ms, max_ms),
{
    let doubled = delay_ms * 2;
    if doubled <= max_ms {
        doubled
    } else {
        max_ms
    }
}

} // verus!
