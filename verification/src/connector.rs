//! The connector lifecycle as an explicit state machine: connect, subscribe,
//! stream, and reconnect with a doubling, capped backoff — the decisions the
//! network loop takes, separated from the I/O that carries them out.
use vstd::prelude::*;

verus! {

/// First delay after a failed connection attempt, in seconds.
pub const INITIAL_BACKOFF_SECS: u64 = 2;

/// Cap on the reconnect delay, in seconds.
pub const MAX_BACKOFF_SECS: u64 = 60;

#[derive(Clone, Copy, Debug, PartialEq, Eq, Structural)]
pub enum ConnPhase {
    Disconnected,
    Connecting,
    Subscribed,
    Streaming,
}

#[derive(Clone, Copy, Debug, PartialEq, Eq, Structural)]
pub enum ConnEvent {
    /// The loop is about to dial the endpoint.
    StartConnect,
    /// The transport handshake succeeded.
    ConnectOk,
    /// The transport handshake failed.
    ConnectFailed,
    /// The subscription request went out.
    SubscribeOk,
    /// Sending the subscription failed; reading is still attempted.
    SubscribeFailed,
    /// One message was handled — well-formed or not, the stream goes on.
    MessageHandled,
    /// A mid-stream read error.
    StreamError,
    /// The remote side closed the connection.
    RemoteClosed,
}

#[derive(Clone, Copy, Debug, PartialEq, Eq, Structural)]
pub struct ConnectorState {
    pub phase: ConnPhase,
    pub backoff_secs: u64,
}

impl ConnectorState {
    pub open spec fn wf(self) -> bool {
        INITIAL_BACKOFF_SECS <= self.backoff_secs <= MAX_BACKOFF_SECS
    }
}

/// The state a connector starts in.
pub fn initial_state() -> (s: ConnectorState)
    ensures
        s.wf(),
        s.phase == ConnPhase::Disconnected,
        s.backoff_secs == INITIAL_BACKOFF_SECS,
{
    ConnectorState { phase: ConnPhase::Disconnected, backoff_secs: INITIAL_BACKOFF_SECS }
}

/// One lifecycle transition.
///
/// A successful connection resets the backoff; a failed attempt doubles it
/// up to the cap; a mid-stream failure returns to `Disconnected` with the
/// backoff reset, for the fixed short reconnect delay. A handled message —
/// malformed or not — keeps the connector streaming.
pub fn step(s: &ConnectorState, ev: &ConnEvent) -> (r: ConnectorState)
    requires
        s.wf(),
    ensures
        r.wf(),
        ev == ConnEvent::StartConnect ==> r == (ConnectorState {
            phase: ConnPhase::Connecting,
            backoff_secs: s.backoff_secs,
        }),
        ev == ConnEvent::ConnectOk ==> r == (ConnectorState {
            phase: ConnPhase::Subscribed,
            backoff_secs: INITIAL_BACKOFF_SECS,
        }),
        ev == ConnEvent::ConnectFailed ==> r.phase == ConnPhase::Disconnected && r.backoff_secs
            == (if 2 * s.backoff_secs <= MAX_BACKOFF_SECS {
            2 * s.backoff_secs
        } else {
            MAX_BACKOFF_SECS as int
        }),
        ev == ConnEvent::SubscribeOk || ev == ConnEvent::SubscribeFailed ==> r == (ConnectorState {
            phase: ConnPhase::Streaming,
            backoff_secs: s.backoff_secs,
        }),
        ev == ConnEvent::MessageHandled ==> r == (ConnectorState {
            phase: ConnPhase::Streaming,
            backoff_secs: s.backoff_secs,
        }),
        ev == ConnEvent::StreamError || ev == ConnEvent::RemoteClosed ==> r == (ConnectorState {
            phase: ConnPhase::Disconnected,
            backoff_secs: INITIAL_BACKOFF_SECS,
        }),
{
    match ev {
        ConnEvent::StartConnect => ConnectorState {
            phase: ConnPhase::Connecting,
            backoff_secs: s.backoff_secs,
        },
        ConnEvent::ConnectOk => ConnectorState {
            phase: ConnPhase::Subscribed,
            backoff_secs: INITIAL_BACKOFF_SECS,
        },
        ConnEvent::ConnectFailed => {
            let doubled: u64 = if s.backoff_secs <= MAX_BACKOFF_SECS / 2 {
                2 * s.backoff_secs
            } else {
                MAX_BACKOFF_SECS
            };
            let capped: u64 = if doubled <= MAX_BACKOFF_SECS {
                doubled
            } else {
                MAX_BACKOFF_SECS
            };
            ConnectorState { phase: ConnPhase::Disconnected, backoff_secs: capped }
        },
        ConnEvent::SubscribeOk => ConnectorState {
            phase: ConnPhase::Streaming,
            backoff_secs: s.backoff_secs,
        },
        ConnEvent::SubscribeFailed => ConnectorState {
            phase: ConnPhase::Streaming,
            backoff_secs: s.backoff_secs,
        },
        ConnEvent::MessageHandled => ConnectorState {
            phase: ConnPhase::Streaming,
            backoff_secs: s.backoff_secs,
        },
        ConnEvent::StreamError => ConnectorState {
            phase: ConnPhase::Disconnected,
            backoff_secs: INITIAL_BACKOFF_SECS,
        },
        ConnEvent::RemoteClosed => ConnectorState {
            phase: ConnPhase::Disconnected,
            backoff_secs: INITIAL_BACKOFF_SECS,
        },
    }
}

} // verus!
