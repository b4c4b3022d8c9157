//! Server session logic.
//!
//! One session owns one connection. The surrounding loop reads and decodes a
//! frame (I/O, outside this crate), hands the outcome to `session_step`, and
//! performs the action it returns: forward the message to the other peers,
//! or unregister the connection and stop. The decisions themselves are pure
//! and live here.

use crate::codec::Message;
use vstd::prelude::*;

verus! {

/// Why a session ended abnormally.
#[derive(Debug, Clone, Copy, PartialEq, Eq, Structural)]
pub enum ServerError {
    /// Reading from or writing to the peer failed, or its frames no longer
    /// parse.
    Io,
    /// The peer's address — its identity — could not be obtained.
    PeerAddress,
}

/// Where a session stands: it either still serves its connection or has
/// reached its terminal state.
#[derive(Debug, Clone, Copy, PartialEq, Eq, Structural)]
pub enum SessionState {
    Connected,
    Disconnected,
}

/// What the read half of a session observed.
pub enum SessionEvent {
    /// One whole frame was decoded.
    Frame(Message),
    /// The peer closed the connection cleanly.
    Eof,
    /// The read failed or the frame did not decode: the connection is
    /// desynchronized and must be dropped.
    Failed,
}

/// What the session loop must do next.
pub enum SessionAction {
    /// Fan the message out to every other registered connection.
    Broadcast(Message),
    /// Unregister this connection and exit the loop; `true` means the peer
    /// left cleanly.
    Disconnect(bool),
}

/// One step of the per-connection state machine: a decoded frame is
/// broadcast and the session keeps reading; end of stream or any read or
/// decode failure is terminal and unregisters the connection — cleanly on
/// end of stream, as a failure otherwise.
pub fn session_step(state: SessionState, event: SessionEvent) -> (r: (
    SessionState,
    SessionAction,
))
    requires
        state == SessionState::Connected,
    ensures
        match event {
            SessionEvent::Frame(m) => r == (
                SessionState::Connected,
                SessionAction::Broadcast(m),
            ),
            SessionEvent::Eof => r == (SessionState::Disconnected, SessionAction::Disconnect(true)),
            SessionEvent::Failed => r == (
                SessionState::Disconnected,
                SessionAction::Disconnect(false),
            ),
        },
{
    match event {
        SessionEvent::Frame(m) => (SessionState::Connected, SessionAction::Broadcast(m)),
        SessionEvent::Eof => (SessionState::Disconnected, SessionAction::Disconnect(true)),
        SessionEvent::Failed => (SessionState::Disconnected, SessionAction::Disconnect(false)),
    }
}

/// The report a finished session hands back: success for a clean close,
/// an I/O failure otherwise.
pub fn session_outcome(clean: bool) -> (r: Result<(), ServerError>)
    ensures
        clean ==> r == Ok::<(), ServerError>(()),
        !clean ==> r == Err::<(), ServerError>(ServerError::Io),
{
    if clean {
        Ok(())
    } else {
        Err(ServerError::Io)
    }
}

} // verus!
