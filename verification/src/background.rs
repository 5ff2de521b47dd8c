//! The two background loops of the service, as state machines: the caller
//! reports what has happened, and is told what to do next.
//!
//! The binding loop reconciles the sockets with the system's interfaces at a
//! fixed pace. The maintenance loop runs the overlay core's maintenance at
//! the pace that the core itself asks for.

use vstd::prelude::*;

verus! {

/// The time between two reconciliations of the bindings, in milliseconds.
pub const UDP_UPDATE_BINDINGS_INTERVAL_MS: u64 = 2500;

/// The wait before the first maintenance run, in seconds.
pub const CORE_BACKGROUND_FIRST_DELAY_SECS: u64 = 1;

/// A span of time: whole seconds and the nanoseconds beyond them.
#[derive(Clone, Copy, Debug, PartialEq, Eq, Structural)]
pub struct Delay {
    pub secs: u64,
    pub nanos: u32,
}

/// Where a background loop stands.
#[derive(Clone, Copy, Debug, PartialEq, Eq, Structural)]
pub enum LoopState {
    /// The loop has not begun.
    Idle,
    /// The loop waits for its next round.
    Sleeping,
    /// The round is under way.
    Running,
    /// The loop has been stopped for good.
    Stopped,
}

/// What has happened to the binding loop.
#[derive(Clone, Copy, Debug, PartialEq, Eq, Structural)]
pub enum BindingEvent {
    /// The loop was started.
    Started,
    /// The bindings of the primary port have been reconciled: so many binds
    /// were refused, and `failed` says whether no socket at all is bound to
    /// the port.
    Reconciled { bind_failures: usize, failed: bool },
    /// The wait is over.
    Woke,
}

/// What the caller of the binding loop is to do next.
#[derive(Clone, Copy, Debug, PartialEq, Eq, Structural)]
pub enum BindingAction {
    /// Reconcile the bindings of the primary port, then report
    /// `Reconciled`.
    Reconcile,
    /// Wait this many milliseconds, then report `Woke`. With `report` set,
    /// make the bind failures and the state of the port known first.
    Sleep { report: bool, ms: u64 },
    /// The event does not belong to this state: do nothing.
    Ignore,
}

/// The state and the action that follow an event of the binding loop. The
/// loop reconciles at once when it is started, and then waits the fixed
/// interval after every reconciliation, whether it failed or not. Every
/// refused bind is made known, and so is a port without any socket; both
/// are tried again in the next round only.
pub open spec fn spec_binding_step(state: LoopState, event: BindingEvent) -> (
    LoopState,
    BindingAction,
) {
    match (state, event) {
        (LoopState::Idle, BindingEvent::Started) => (LoopState::Running, BindingAction::Reconcile),
        (LoopState::Running, BindingEvent::Reconciled { bind_failures, failed }) => (
            LoopState::Sleeping,
            BindingAction::Sleep {
                report: bind_failures > 0 || failed,
                ms: UDP_UPDATE_BINDINGS_INTERVAL_MS,
            },
        ),
        (LoopState::Sleeping, BindingEvent::Woke) => (
            LoopState::Running,
            BindingAction::Reconcile,
        ),
        _ => (state, BindingAction::Ignore),
    }
}

/// One step of the binding loop.
pub fn binding_step(state: LoopState, event: BindingEvent) -> (next: (LoopState, BindingAction))
    ensures
        next == spec_binding_step(state, event),
{
    match state {
        LoopState::Idle => match event {
            BindingEvent::Started => (LoopState::Running, BindingAction::Reconcile),
            _ => (state, BindingAction::Ignore),
        },
        LoopState::Running => match event {
            BindingEvent::Reconciled { bind_failures, failed } => (
                LoopState::Sleeping,
                BindingAction::Sleep {
                    report: bind_failures > 0 || failed,
                    ms: UDP_UPDATE_BINDINGS_INTERVAL_MS,
                },
            ),
            _ => (state, BindingAction::Ignore),
        },
        LoopState::Sleeping => match event {
            BindingEvent::Woke => (LoopState::Running, BindingAction::Reconcile),
            _ => (state, BindingAction::Ignore),
        },
        LoopState::Stopped => (state, BindingAction::Ignore),
    }
}

/// A loop that has been stopped stays stopped: whatever is reported to it,
/// it asks for nothing more.
pub proof fn lemma_stopped_for_good(binding: BindingEvent, maintenance: MaintenanceEvent)
    ensures
        spec_binding_step(LoopState::Stopped, binding) == (
            LoopState::Stopped,
            BindingAction::Ignore,
        ),
        spec_maintenance_step(LoopState::Stopped, maintenance) == (
            LoopState::Stopped,
            MaintenanceAction::Ignore,
        ),
{
}

/// What has happened to the maintenance loop.
#[derive(Clone, Copy, Debug, PartialEq, Eq, Structural)]
pub enum MaintenanceEvent {
    /// The loop was started.
    Started,
    /// The wait is over.
    Woke,
    /// The overlay core has done its maintenance and asks for its next run
    /// after this delay.
    CoreDone(Delay),
}

/// What the caller of the maintenance loop is to do next.
#[derive(Clone, Copy, Debug, PartialEq, Eq, Structural)]
pub enum MaintenanceAction {
    /// Wait this long, then report `Woke`.
    Sleep(Delay),
    /// Let the overlay core do its maintenance, then report `CoreDone`.
    RunCore,
    /// The event does not belong to this state: do nothing.
    Ignore,
}

/// The state and the action that follow an event of the maintenance loop.
/// The loop waits a second before its first run, and after each run exactly
/// as long as the overlay core asked for.
pub open spec fn spec_maintenance_step(state: LoopState, event: MaintenanceEvent) -> (
    LoopState,
    MaintenanceAction,
) {
    match (state, event) {
        (LoopState::Idle, MaintenanceEvent::Started) => (
            LoopState::Sleeping,
            MaintenanceAction::Sleep(Delay { secs: CORE_BACKGROUND_FIRST_DELAY_SECS, nanos: 0 }),
        ),
        (LoopState::Sleeping, MaintenanceEvent::Woke) => (
            LoopState::Running,
            MaintenanceAction::RunCore,
        ),
        (LoopState::Running, MaintenanceEvent::CoreDone(delay)) => (
            LoopState::Sleeping,
            MaintenanceAction::Sleep(delay),
        ),
        _ => (state, MaintenanceAction::Ignore),
    }
}

/// One step of the maintenance loop.
pub fn maintenance_step(state: LoopState, event: MaintenanceEvent) -> (next: (
    LoopState,
    MaintenanceAction,
))
    ensures
        next == spec_maintenance_step(state, event),
{
    match state {
        LoopState::Idle => match event {
            MaintenanceEvent::Started => (
                LoopState::Sleeping,
                MaintenanceAction::Sleep(
                    Delay { secs: CORE_BACKGROUND_FIRST_DELAY_SECS, nanos: 0 },
                ),
            ),
            _ => (state, MaintenanceAction::Ignore),
        },
        LoopState::Sleeping => match event {
            MaintenanceEvent::Woke => (LoopState::Running, MaintenanceAction::RunCore),
            _ => (state, MaintenanceAction::Ignore),
        },
        LoopState::Running => match event {
            MaintenanceEvent::CoreDone(delay) => (
                LoopState::Sleeping,
                MaintenanceAction::Sleep(delay),
            ),
            _ => (state, MaintenanceAction::Ignore),
        },
        LoopState::Stopped => (state, MaintenanceAction::Ignore),
    }
}

} // verus!
