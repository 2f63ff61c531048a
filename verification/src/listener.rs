//! The per-key stream listener: its connection state machine and the parser
//! that turns one wire frame of a push-event stream into an event payload.
//!
//! The caller that owns the real connection drives the machine: it hands
//! each observed event to [`step`] and performs the returned action. Frames
//! arrive as the standard push-event text convention: records separated by a
//! blank line, fields written `field: value`, the payload taken from the
//! `data:` lines joined in order with line feeds.

use vstd::prelude::*;

use crate::text::spec_joined;
use crate::text::to_chars;
use vstd::string::StrSliceExecFns;

verus! {

/// The lifecycle of one listener. `Idle` is the construction state;
/// `Terminated` is reached only through explicit cancellation.
#[derive(Clone, Copy, Debug, PartialEq, Eq, Structural)]
pub enum ListenerState {
    Idle,
    Connecting,
    Streaming,
    Reconnecting,
    Terminated,
}

/// What the surrounding task observed since the last step.
#[derive(Clone, Copy, Debug, PartialEq, Eq, Structural)]
pub enum ListenerEvent {
    StartRequested,
    ConnectSucceeded,
    ConnectFailed,
    FrameArrived,
    StreamClosed,
    BackoffElapsed,
    CancelObserved,
}

/// What the surrounding task must do next.
#[derive(Clone, Copy, Debug, PartialEq, Eq, Structural)]
pub enum ListenerAction {
    /// Attempt to open the long-lived connection.
    Connect,
    /// Wait for the next complete frame on the open connection.
    Read,
    /// Sleep for the backoff interval, then report `BackoffElapsed`.
    Backoff,
    /// Close the connection and stop the task.
    Close,
    /// Nothing: the event does not apply to the current state.
    Stay,
}

/// The transition relation of the listener lifecycle: failures loop back
/// through `Reconnecting`, and only an observed cancellation terminates.
pub open spec fn spec_step(s: ListenerState, e: ListenerEvent) -> (ListenerState, ListenerAction) {
    match (s, e) {
        (_, ListenerEvent::CancelObserved) => {
            if s is Terminated {
                (ListenerState::Terminated, ListenerAction::Stay)
            } else {
                (ListenerState::Terminated, ListenerAction::Close)
            }
        },
        (ListenerState::Idle, ListenerEvent::StartRequested) => (
            ListenerState::Connecting,
            ListenerAction::Connect,
        ),
        (ListenerState::Connecting, ListenerEvent::ConnectSucceeded) => (
            ListenerState::Streaming,
            ListenerAction::Read,
        ),
        (ListenerState::Connecting, ListenerEvent::ConnectFailed) => (
            ListenerState::Reconnecting,
            ListenerAction::Backoff,
        ),
        (ListenerState::Streaming, ListenerEvent::FrameArrived) => (
            ListenerState::Streaming,
            ListenerAction::Read,
        ),
        (ListenerState::Streaming, ListenerEvent::StreamClosed) => (
            ListenerState::Reconnecting,
            ListenerAction::Backoff,
        ),
        (ListenerState::Reconnecting, ListenerEvent::BackoffElapsed) => (
            ListenerState::Connecting,
            ListenerAction::Connect,
        ),
        _ => (s, ListenerAction::Stay),
    }
}

/// One step of the listener lifecycle.
pub fn step(s: ListenerState, e: ListenerEvent) -> (r: (ListenerState, ListenerAction))
    ensures
        r == spec_step(s, e),
{
    match (s, e) {
        (ListenerState::Terminated, ListenerEvent::CancelObserved) => (
            ListenerState::Terminated,
            ListenerAction::Stay,
        ),
        (_, ListenerEvent::CancelObserved) => (ListenerState::Terminated, ListenerAction::Close),
        (ListenerState::Idle, ListenerEvent::StartRequested) => (
            ListenerState::Connecting,
            ListenerAction::Connect,
        ),
        (ListenerState::Connecting, ListenerEvent::ConnectSucceeded) => (
            ListenerState::Streaming,
            ListenerAction::Read,
        ),
        (ListenerState::Connecting, ListenerEvent::ConnectFailed) => (
            ListenerState::Reconnecting,
            ListenerAction::Backoff,
        ),
        (ListenerState::Streaming, ListenerEvent::FrameArrived) => (
            ListenerState::Streaming,
            ListenerAction::Read,
        ),
        (ListenerState::Streaming, ListenerEvent::StreamClosed) => (
            ListenerState::Reconnecting,
            ListenerAction::Backoff,
        ),
        (ListenerState::Reconnecting, ListenerEvent::BackoffElapsed) => (
            ListenerState::Connecting,
            ListenerAction::Connect,
        ),
        _ => (s, ListenerAction::Stay),
    }
}

/// Cancellation always terminates, terminating twice is idempotent, and no
/// failure event ever terminates a listener: only explicit cancellation
/// reaches `Terminated`.
pub proof fn lemma_cancellation(s: ListenerState, e: ListenerEvent)
    ensures
        spec_step(s, ListenerEvent::CancelObserved).0 is Terminated,
        spec_step(
            spec_step(s, ListenerEvent::CancelObserved).0,
            ListenerEvent::CancelObserved,
        ).0 is Terminated,
        !(s is Terminated) && !(e is CancelObserved) ==> !(spec_step(s, e).0 is Terminated),
        s is Terminated ==> spec_step(s, e).0 is Terminated && spec_step(s, e).1 is Stay,
{
}

/// A field line carrying the payload: it begins with `data:`.
pub open spec fn is_data_line(line: Seq<char>) -> bool {
    line.len() >= 5 && line.subrange(0, 5) == "data:"@
}

/// The value of a `data:` line, with one leading space after the colon
/// removed, as the push-event convention reads it.
pub open spec fn data_value(line: Seq<char>) -> Seq<char>
    recommends
        is_data_line(line),
{
    if line.len() > 5 && line[5] == ' ' {
        line.subrange(6, line.len() as int)
    } else {
        line.subrange(5, line.len() as int)
    }
}

/// The values of all `data:` lines of one record, in order.
pub open spec fn data_values(lines: Seq<Seq<char>>) -> Seq<Seq<char>>
    decreases lines.len(),
{
    if lines.len() == 0 {
        Seq::empty()
    } else if is_data_line(lines.last()) {
        data_values(lines.drop_last()).push(data_value(lines.last()))
    } else {
        data_values(lines.drop_last())
    }
}

/// Parses the field lines of one record into its event payload: the values
/// of its `data:` lines joined with line feeds, in order. A record without
/// any `data:` line is malformed or carries no payload and yields `None`,
/// to be skipped silently.
pub fn parse_frame(lines: &Vec<String>) -> (r: Option<String>)
    ensures
        r is Some <==> data_values(lines@.map_values(|e: String| e@)).len() > 0,
        r is Some ==> r.unwrap()@ == spec_joined(
            data_values(lines@.map_values(|e: String| e@)),
            '\n',
        ),
{
    let ghost lviews = lines@.map_values(|e: String| e@);
    let mut acc = String::new();
    let mut found = false;
    let mut i: usize = 0;
    while i < lines.len()
        invariant
            lviews == lines@.map_values(|e: String| e@),
            i <= lines@.len(),
            found <==> data_values(lviews.take(i as int)).len() > 0,
            found ==> acc@ == spec_joined(data_values(lviews.take(i as int)), '\n'),
        decreases lines@.len() - i,
    {
        proof {
            assert(lviews.take(i + 1).drop_last() =~= lviews.take(i as int));
            assert(lviews.take(i + 1).last() == lines@[i as int]@);
        }
        let cs = to_chars(lines[i].as_str());
        let line_len = cs.len();
        let is_data = line_len >= 5 && cs[0] == 'd' && cs[1] == 'a' && cs[2] == 't' && cs[3] == 'a'
            && cs[4] == ':';
        proof {
            reveal_strlit("data:");
            assert(("data:")@ =~= seq!['d', 'a', 't', 'a', ':']);
            if line_len >= 5 {
                if is_data {
                    assert(cs@.subrange(0, 5) =~= "data:"@);
                } else if cs@.subrange(0, 5) == "data:"@ {
                    assert(forall|k: int| 0 <= k < 5 ==> #[trigger] cs@.subrange(0, 5)[k] == cs@[k]);
                    assert(cs@[0] == 'd' && cs@[1] == 'a' && cs@[2] == 't' && cs@[3] == 'a'
                        && cs@[4] == ':');
                }
            }
        }
        if is_data {
            let start: usize = if line_len > 5 && cs[5] == ' ' {
                6
            } else {
                5
            };
            let value = lines[i].as_str().substring_char(start, line_len);
            proof {
                assert(value@ == data_value(lines@[i as int]@));
                let dv = data_values(lviews.take(i as int));
                if dv.len() > 0 {
                    assert(dv.push(value@).drop_last() =~= dv);
                }
            }
            if found {
                acc.append("\n");
                proof {
                    reveal_strlit("\n");
                    assert(("\n")@ =~= seq!['\n']);
                }
                acc.append(value);
            } else {
                acc = String::from_str(value);
                found = true;
            }
        }
        i = i + 1;
    }
    proof {
        assert(lviews.take(lines@.len() as int) =~= lviews);
    }
    if found {
        Some(acc)
    } else {
        None
    }
}

} // verus!
