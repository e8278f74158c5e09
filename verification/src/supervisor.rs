//! The supervisor: a two-state machine around the streaming session. The
//! process streams events and, on any session failure, waits a backoff and
//! resubscribes — there is no terminal state, the loop self-heals forever.
//! The decision logic lives here, verified; the surrounding process drives
//! it, performing each action and reporting what happened.

use vstd::prelude::*;
use crate::classify::{classify, classify_spec, LifecycleEvent};
use crate::recency::{touched, RecencyStore};

verus! {

#[derive(PartialEq, Eq, Structural, Clone, Copy, Debug)]
pub enum SupervisorState {
    Streaming,
    Restarting,
}

/// What the surrounding process reports back to the supervisor.
#[derive(PartialEq, Eq, Structural, Clone, Copy, Debug)]
pub enum SupervisorInput {
    EventHandled,
    SessionFailed,
    BackoffElapsed,
}

/// What the supervisor asks the surrounding process to do next.
#[derive(PartialEq, Eq, Structural, Clone, Copy, Debug)]
pub enum SupervisorAction {
    ContinueStreaming,
    WaitBackoff,
    Resubscribe,
}

/// The full transition table: a session failure always leads to a backoff
/// wait, and only an elapsed backoff brings streaming back.
pub open spec fn supervisor_step_spec(s: SupervisorState, i: SupervisorInput) -> (
    SupervisorState,
    SupervisorAction,
) {
    match (s, i) {
        (SupervisorState::Streaming, SupervisorInput::EventHandled) => (
            SupervisorState::Streaming,
            SupervisorAction::ContinueStreaming,
        ),
        (SupervisorState::Streaming, SupervisorInput::SessionFailed) => (
            SupervisorState::Restarting,
            SupervisorAction::WaitBackoff,
        ),
        (SupervisorState::Streaming, SupervisorInput::BackoffElapsed) => (
            SupervisorState::Streaming,
            SupervisorAction::ContinueStreaming,
        ),
        (SupervisorState::Restarting, SupervisorInput::BackoffElapsed) => (
            SupervisorState::Streaming,
            SupervisorAction::Resubscribe,
        ),
        (SupervisorState::Restarting, SupervisorInput::EventHandled) => (
            SupervisorState::Restarting,
            SupervisorAction::WaitBackoff,
        ),
        (SupervisorState::Restarting, SupervisorInput::SessionFailed) => (
            SupervisorState::Restarting,
            SupervisorAction::WaitBackoff,
        ),
    }
}

/// One supervisor transition.
pub fn supervisor_step(s: SupervisorState, i: SupervisorInput) -> (r: (
    SupervisorState,
    SupervisorAction,
))
    ensures
        r == supervisor_step_spec(s, i),
{
    match (s, i) {
        (SupervisorState::Streaming, SupervisorInput::EventHandled) => (
            SupervisorState::Streaming,
            SupervisorAction::ContinueStreaming,
        ),
        (SupervisorState::Streaming, SupervisorInput::SessionFailed) => (
            SupervisorState::Restarting,
            SupervisorAction::WaitBackoff,
        ),
        (SupervisorState::Streaming, SupervisorInput::BackoffElapsed) => (
            SupervisorState::Streaming,
            SupervisorAction::ContinueStreaming,
        ),
        (SupervisorState::Restarting, SupervisorInput::BackoffElapsed) => (
            SupervisorState::Streaming,
            SupervisorAction::Resubscribe,
        ),
        (SupervisorState::Restarting, SupervisorInput::EventHandled) => (
            SupervisorState::Restarting,
            SupervisorAction::WaitBackoff,
        ),
        (SupervisorState::Restarting, SupervisorInput::SessionFailed) => (
            SupervisorState::Restarting,
            SupervisorAction::WaitBackoff,
        ),
    }
}

/// Route one raw event through the classifier into the recency store:
/// an event that signals an image in use refreshes that image's recency
/// at `now`; every other event leaves the store untouched. Returns whether
/// the store changed, so the caller knows a vacuum pass is due.
pub fn observe_event(store: &mut RecencyStore, e: LifecycleEvent, now: u64) -> (updated: bool)
    requires
        old(store).wf(),
    ensures
        final(store).wf(),
        updated == (classify_spec(e.kind@, e.action@, e.image_id@) is Some),
        final(store)@ == (match classify_spec(e.kind@, e.action@, e.image_id@) {
            Option::Some(id) => touched(old(store)@, id, now),
            Option::None => old(store)@,
        }),
{
    match classify(e) {
        Option::Some(id) => {
            store.touch(id, now);
            true
        },
        Option::None => false,
    }
}

} // verus!
