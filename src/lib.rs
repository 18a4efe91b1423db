//! Matchmaking and relay logic for an anonymous two-party chat service.
//!
//! Connections register with a [`Lobby`], wait in its queue until they are
//! paired with one other waiting connection, and then have their frames
//! relayed to that partner until either side leaves. Each connection's
//! decisions are taken by a [`Handler`], which turns events into actions.
mod lobby;
mod session;

pub use lobby::{Lobby, LobbyError, Pairing};
pub use session::{Action, Event, Handler, Phase, MAX_ATTEMPTS, POLL_INTERVAL_MS, START_NOTICE, TIMEOUT_NOTICE};
