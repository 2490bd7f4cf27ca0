//! The per-container watcher state machine.
//!
//! A watcher tails one container's log stream. It streams until the stream
//! ends or fails, backs off for a fixed short delay, and retries — forever,
//! until cancelled. Cancellation wins over every other event and leads to
//! the terminal state at once, so a cancelled watcher terminates within one
//! backoff interval even mid-stream. The runner performs the returned
//! action (open a stream, sleep, exit) and reports the next event back.

use vstd::prelude::*;
use crate::extract::{event_spec, extract_event};
use crate::store::{bumped, MetricStore};

verus! {

/// Fixed delay before a failed stream is retried, in seconds.
pub const STREAM_BACKOFF_SECS: u64 = 1;

/// State of one watcher.
#[derive(Debug, Clone, Copy, PartialEq, Eq, Structural)]
pub enum WatcherState {
    /// A log stream is open and read line by line.
    Streaming,
    /// The last stream ended or failed; waiting before the retry.
    Backoff,
    /// Terminal: the watcher's task returns and nothing follows.
    Stopped,
}

/// What the runner observed at its last suspension point.
#[derive(Debug, Clone, Copy, PartialEq, Eq, Structural)]
pub enum WatcherEvent {
    /// Cancellation was requested.
    Cancelled,
    /// The open stream reached its end or failed.
    StreamEnded,
    /// The backoff delay elapsed.
    BackoffElapsed,
}

/// What the runner does next.
#[derive(Debug, Clone, Copy, PartialEq, Eq, Structural)]
pub enum WatcherAction {
    /// Open a following log stream starting from the current time.
    OpenStream,
    /// Sleep for this many seconds.
    Sleep(u64),
    /// Return from the watcher task.
    Exit,
}

/// The transition function of the watcher state machine: cancellation is
/// terminal from every state; a stream end leads to one backoff interval;
/// an elapsed backoff reopens the stream.
pub open spec fn step_spec(s: WatcherState, e: WatcherEvent) -> (WatcherState, WatcherAction) {
    match (s, e) {
        (_, WatcherEvent::Cancelled) => (WatcherState::Stopped, WatcherAction::Exit),
        (WatcherState::Stopped, _) => (WatcherState::Stopped, WatcherAction::Exit),
        (WatcherState::Streaming, WatcherEvent::StreamEnded) => (
            WatcherState::Backoff,
            WatcherAction::Sleep(STREAM_BACKOFF_SECS),
        ),
        (WatcherState::Streaming, WatcherEvent::BackoffElapsed) => (
            WatcherState::Streaming,
            WatcherAction::OpenStream,
        ),
        (WatcherState::Backoff, WatcherEvent::BackoffElapsed) => (
            WatcherState::Streaming,
            WatcherAction::OpenStream,
        ),
        (WatcherState::Backoff, WatcherEvent::StreamEnded) => (
            WatcherState::Backoff,
            WatcherAction::Sleep(STREAM_BACKOFF_SECS),
        ),
    }
}

/// Advance the watcher state machine by one observed event.
pub fn step(s: WatcherState, e: WatcherEvent) -> (r: (WatcherState, WatcherAction))
    ensures
        r == step_spec(s, e),
{
    match (s, e) {
        (_, WatcherEvent::Cancelled) => (WatcherState::Stopped, WatcherAction::Exit),
        (WatcherState::Stopped, _) => (WatcherState::Stopped, WatcherAction::Exit),
        (WatcherState::Streaming, WatcherEvent::StreamEnded) => (
            WatcherState::Backoff,
            WatcherAction::Sleep(STREAM_BACKOFF_SECS),
        ),
        (WatcherState::Streaming, WatcherEvent::BackoffElapsed) => (
            WatcherState::Streaming,
            WatcherAction::OpenStream,
        ),
        (WatcherState::Backoff, WatcherEvent::BackoffElapsed) => (
            WatcherState::Streaming,
            WatcherAction::OpenStream,
        ),
        (WatcherState::Backoff, WatcherEvent::StreamEnded) => (
            WatcherState::Backoff,
            WatcherAction::Sleep(STREAM_BACKOFF_SECS),
        ),
    }
}

/// Law: cancelling a watcher stops it at the very next suspension point,
/// from every state, and the runner exits at once — so termination takes at
/// most the one pending backoff interval, even mid-stream.
pub proof fn lemma_cancel_stops(s: WatcherState)
    ensures
        step_spec(s, WatcherEvent::Cancelled) == (WatcherState::Stopped, WatcherAction::Exit),
{
}

/// Law: the stopped state is terminal — no event leaves it, and the runner
/// only ever exits from it, so no metric-store call follows it.
pub proof fn lemma_stopped_is_terminal(e: WatcherEvent)
    ensures
        step_spec(WatcherState::Stopped, e) == (WatcherState::Stopped, WatcherAction::Exit),
{
}

/// Law: without cancellation a watcher never stops on its own: a stream
/// failure only leads to backoff and retry.
pub proof fn lemma_only_cancel_stops(s: WatcherState, e: WatcherEvent)
    requires
        s != WatcherState::Stopped,
        e != WatcherEvent::Cancelled,
    ensures
        step_spec(s, e).0 != WatcherState::Stopped,
{
}

/// Handle one log line while streaming: extract its event, if any, and
/// record it in the metric store at time `now`; a line without an event
/// (no match, oversized status, or a domain that is not UTF-8) leaves the
/// store untouched.
pub fn handle_line(store: &mut MetricStore, line: &[u8], now: u64) -> (recorded: bool)
    requires
        old(store).wf(),
    ensures
        final(store).wf(),
        recorded == (event_spec(line@) is Some),
        event_spec(line@) is None ==> *final(store) == *old(store),
        event_spec(line@) is Some ==> {
            let k = ((event_spec(line@)->0).0, (event_spec(line@)->0).1);
            &&& final(store).spec_lookup(k) == Some(bumped(old(store).spec_lookup(k), now))
            &&& forall|k2: (Seq<char>, u16)|
                k2 != k ==> final(store).spec_lookup(k2) == old(store).spec_lookup(k2)
        },
{
    match extract_event(line) {
        Some(ev) => {
            store.record(ev.domain, ev.status, now);
            true
        },
        None => false,
    }
}

} // verus!
