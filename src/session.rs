//! The life of one archive request, `Idle` to a final phase, and what the
//! producing worker does after each attempt to hand a chunk over.
use vstd::prelude::*;
use crate::channel::{Outcome, SendOutcome};

verus! {

/// Where one archive request stands.
#[derive(Clone, Copy, Debug, PartialEq, Eq, Structural)]
pub enum StreamPhase {
    Idle,
    Walking,
    Streaming,
    Completed,
    Errored,
    Cancelled,
}

/// What happened to an archive request.
#[derive(Clone, Copy, Debug, PartialEq, Eq, Structural)]
pub enum StreamEvent {
    /// The request was admitted and the worker started.
    Validated,
    /// A chunk was handed to the consumer.
    ChunkProduced,
    /// The producer closed the stream with its outcome.
    Closed(Outcome),
    /// The consumer went away.
    ConsumerGone,
}

pub open spec fn is_final(p: StreamPhase) -> bool {
    p == StreamPhase::Completed || p == StreamPhase::Errored || p == StreamPhase::Cancelled
}

/// The phase an outcome ends in.
pub open spec fn final_phase(o: Outcome) -> StreamPhase {
    match o {
        Outcome::Done => StreamPhase::Completed,
        Outcome::Failed(_) => StreamPhase::Errored,
        Outcome::Cancelled => StreamPhase::Cancelled,
    }
}

pub open spec fn next_phase(p: StreamPhase, ev: StreamEvent) -> StreamPhase {
    if is_final(p) {
        p
    } else {
        match ev {
            StreamEvent::Validated => if p == StreamPhase::Idle {
                StreamPhase::Walking
            } else {
                p
            },
            StreamEvent::ChunkProduced => if p == StreamPhase::Idle {
                p
            } else {
                StreamPhase::Streaming
            },
            StreamEvent::Closed(o) => if p == StreamPhase::Idle {
                p
            } else {
                final_phase(o)
            },
            StreamEvent::ConsumerGone => StreamPhase::Cancelled,
        }
    }
}

/// The phase after `ev`.
pub fn advance(p: StreamPhase, ev: StreamEvent) -> (r: StreamPhase)
    ensures
        r == next_phase(p, ev),
{
    match p {
        StreamPhase::Completed | StreamPhase::Errored | StreamPhase::Cancelled => p,
        _ => match ev {
            StreamEvent::Validated => if p == StreamPhase::Idle {
                StreamPhase::Walking
            } else {
                p
            },
            StreamEvent::ChunkProduced => if p == StreamPhase::Idle {
                p
            } else {
                StreamPhase::Streaming
            },
            StreamEvent::Closed(o) => if p == StreamPhase::Idle {
                p
            } else {
                match o {
                    Outcome::Done => StreamPhase::Completed,
                    Outcome::Failed(_) => StreamPhase::Errored,
                    Outcome::Cancelled => StreamPhase::Cancelled,
                }
            },
            StreamEvent::ConsumerGone => StreamPhase::Cancelled,
        },
    }
}

/// A final phase is never left, whatever happens after it.
pub proof fn law_final_phase_kept(p: StreamPhase, ev: StreamEvent)
    requires
        is_final(p),
    ensures
        next_phase(p, ev) == p,
{
}

/// A request that fails ends `Errored`, whatever the phase it failed in,
/// once it has been admitted.
pub proof fn law_failure_ends_errored(p: StreamPhase, e: crate::channel::StreamError)
    requires
        p == StreamPhase::Walking || p == StreamPhase::Streaming,
    ensures
        next_phase(p, StreamEvent::Closed(Outcome::Failed(e))) == StreamPhase::Errored,
{
}

/// What the worker does after offering a chunk.
#[derive(Clone, Copy, Debug, PartialEq, Eq, Structural)]
pub enum ProducerAction {
    /// Go on walking and encoding.
    Proceed,
    /// Block until the consumer takes a chunk, then offer the same one again.
    Wait,
    /// Stop at once, closing every file: nobody is listening, or the
    /// channel was already closed.
    Stop,
}

/// The worker's decision after a send.
pub fn after_send_action(r: &SendOutcome) -> (a: ProducerAction)
    ensures
        a == match r {
            SendOutcome::Sent => ProducerAction::Proceed,
            SendOutcome::Full(_) => ProducerAction::Wait,
            SendOutcome::Disconnected(_) => ProducerAction::Stop,
            SendOutcome::Rejected(_) => ProducerAction::Stop,
        },
{
    match r {
        SendOutcome::Sent => ProducerAction::Proceed,
        SendOutcome::Full(_) => ProducerAction::Wait,
        SendOutcome::Disconnected(_) => ProducerAction::Stop,
        SendOutcome::Rejected(_) => ProducerAction::Stop,
    }
}

} // verus!
