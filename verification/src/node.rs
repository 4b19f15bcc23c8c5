use vstd::prelude::*;

verus! {

/// An unrecoverable failure: a record that does not parse, an unknown
/// discriminator, or a broken internal invariant. The runtime treats every
/// such failure as fatal to the whole process; there is no in-process
/// recovery.
#[derive(PartialEq, Eq, Clone, Debug)]
pub struct ProtocolError {
    pub message: String,
}

/// One event for the state-machine driver: a received wire record, or the
/// firing of the wake-up timer. The driver consumes both from a single
/// ordered queue, first in first out, with no priority between the sources.
#[derive(PartialEq, Eq, Clone, Debug)]
pub enum NodeInput {
    /// One complete record read from the transport.
    Message(String),
    /// The armed wake-up timer fired.
    WakeUp,
}

/// A node's state (as in state machine): the contract between the runtime
/// and a protocol implementation. `handle` and `wake_up` consume the state
/// and return its successor, so state mutation needs no synchronization.
///
/// Neither may block or perform I/O; they act only through the successor
/// state and the records they return. An error from either is fatal to the
/// process. After every invocation the runtime asks `next_wake_up` again
/// and re-arms the single timer with the answer, so an implementation that
/// wants periodic wake-ups must return a fresh future time on every query;
/// `None` cancels any pending timer.
pub trait NodeState: Sized {
    /// Handle one received wire record; the returned records are written
    /// out in order. `now` is the runtime's clock in milliseconds.
    fn handle(self, request: &str, now: u64) -> Result<(Self, Vec<String>), ProtocolError>;

    /// Handle a previously scheduled wake-up call.
    fn wake_up(self, now: u64) -> Result<(Self, Vec<String>), ProtocolError>;

    /// Request (`Some`) or cancel (`None`) the single wake-up timer.
    fn next_wake_up(&self, now: u64) -> (r: Option<u64>) {
        None
    }
}

/// Drive the state machine through one event: dispatch it to `handle` or
/// `wake_up` by the event's kind, and query the next wake-up time
/// afterwards. The caller forwards the returned records to the output
/// writer in order, and hands the wake-up request to the scheduler.
///
/// The contract ties every part of the result to the one trait call the
/// event selects: on success, the successor state and the records are what
/// `handle` (for a received record, handed on verbatim) or `wake_up` (for a
/// timer event) returned, and the wake-up request is what `next_wake_up`
/// answered on the successor state afterwards; on failure, the error is the
/// one that call returned. Nothing is decided without the trait call.
pub fn drive<N: NodeState>(node: N, input: NodeInput, now: u64) -> (r: Result<
    (N, Vec<String>, Option<u64>),
    ProtocolError,
>)
    ensures
        r matches Ok((successor, records, next)) ==> {
            &&& (input matches NodeInput::Message(request) ==> exists|s: &str|
                s@ == request@ && call_ensures(N::handle, (node, s, now), Ok((successor, records))))
            &&& (input is WakeUp ==> call_ensures(N::wake_up, (node, now), Ok((successor, records))))
            &&& call_ensures(N::next_wake_up, (&successor, now), next)
        },
        r matches Err(e) ==> {
            &&& (input matches NodeInput::Message(request) ==> exists|s: &str|
                s@ == request@ && call_ensures(
                    N::handle,
                    (node, s, now),
                    Err::<(N, Vec<String>), ProtocolError>(e),
                ))
            &&& (input is WakeUp ==> call_ensures(
                N::wake_up,
                (node, now),
                Err::<(N, Vec<String>), ProtocolError>(e),
            ))
        },
{
    let out = match input {
        NodeInput::Message(request) => node.handle(request.as_str(), now),
        NodeInput::WakeUp => node.wake_up(now),
    };
    match out {
        Ok((successor, records)) => {
            let next = successor.next_wake_up(now);
            Ok((successor, records, next))
        },
        Err(e) => Err(e),
    }
}

} // verus!
