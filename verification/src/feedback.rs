//! The abstract feedback signal shown to the person presenting a tag.
//!
//! The ingestion pipeline publishes one outcome per event; the feedback
//! worker in the runtime renders it with the LED and buzzer it owns.

use vstd::prelude::*;

use crate::id_store::IngestOutcome;

verus! {

/// What the feedback hardware should express.
#[derive(Debug, Clone, Copy, PartialEq, Eq, Structural)]
pub enum FeedbackState {
    Ack,
    Nack,
    Error,
    Startup,
    WIFI,
    Idle,
}

/// The feedback shown for each ingestion outcome: an accepted read is
/// acknowledged, a duplicate is rejected softly, a persistence failure is
/// signalled as an error (the read itself still counted).
pub fn feedback_for(outcome: IngestOutcome) -> (r: FeedbackState)
    ensures
        outcome is Accepted ==> r is Ack,
        outcome is Duplicate ==> r is Nack,
        outcome is PersistFailed ==> r is Error,
{
    match outcome {
        IngestOutcome::Accepted => FeedbackState::Ack,
        IngestOutcome::Duplicate => FeedbackState::Nack,
        IngestOutcome::PersistFailed => FeedbackState::Error,
    }
}

} // verus!
