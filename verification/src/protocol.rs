//! The states of a connection and the steps between them.

use vstd::prelude::*;

verus! {

/// A state of the protocol.
#[derive(Debug, Clone, Copy, PartialEq, Eq, Structural)]
pub enum ProtocolState {
    Handshake,
    Status,
    Login,
    Config,
    Play,
}

/// Why a step was refused.
#[derive(Debug, Clone, Copy, PartialEq, Eq, Structural)]
pub enum ConnectionStateError {
    /// There is no step from `from` to `to`.
    InvalidTransition { from: ProtocolState, to: ProtocolState },
}

/// The state in which a connection is.
pub struct ConnectionState {
    current: ProtocolState,
}

/// Whether the protocol has a step from `from` to `to`: from the handshake to
/// status or login, from login to configuration, from configuration to play.
pub open spec fn is_step(from: ProtocolState, to: ProtocolState) -> bool {
    ||| from == ProtocolState::Handshake && to == ProtocolState::Status
    ||| from == ProtocolState::Handshake && to == ProtocolState::Login
    ||| from == ProtocolState::Login && to == ProtocolState::Config
    ||| from == ProtocolState::Config && to == ProtocolState::Play
}

/// What a step towards `to` gives.
pub open spec fn step_outcome(
    before: ProtocolState,
    after: ProtocolState,
    to: ProtocolState,
    result: Result<(), ConnectionStateError>,
) -> bool {
    if is_step(before, to) {
        result is Ok && after == to
    } else {
        result == Err::<(), ConnectionStateError>(
            ConnectionStateError::InvalidTransition { from: before, to },
        ) && after == before
    }
}

impl ConnectionState {
    /// The state of the connection.
    pub closed spec fn state(&self) -> ProtocolState {
        self.current
    }

    /// A connection at the handshake.
    pub fn new() -> (c: Self)
        ensures
            c.state() == ProtocolState::Handshake,
    {
        ConnectionState { current: ProtocolState::Handshake }
    }

    /// The state of the connection.
    pub fn current(&self) -> (s: ProtocolState)
        ensures
            s == self.state(),
    {
        self.current
    }

    /// Goes on to login, which only the handshake allows.
    pub fn transition_to_login(&mut self) -> (result: Result<(), ConnectionStateError>)
        ensures
            step_outcome(old(self).state(), final(self).state(), ProtocolState::Login, result),
    {
        match self.current {
            ProtocolState::Handshake => {
                self.current = ProtocolState::Login;
                Ok(())
            },
            _ => Err(
                ConnectionStateError::InvalidTransition {
                    from: self.current,
                    to: ProtocolState::Login,
                },
            ),
        }
    }

    /// Goes on to status, which only the handshake allows.
    pub fn transition_to_status(&mut self) -> (result: Result<(), ConnectionStateError>)
        ensures
            step_outcome(old(self).state(), final(self).state(), ProtocolState::Status, result),
    {
        match self.current {
            ProtocolState::Handshake => {
                self.current = ProtocolState::Status;
                Ok(())
            },
            _ => Err(
                ConnectionStateError::InvalidTransition {
                    from: self.current,
                    to: ProtocolState::Status,
                },
            ),
        }
    }

    /// Goes on to configuration, which only login allows.
    pub fn transition_to_config(&mut self) -> (result: Result<(), ConnectionStateError>)
        ensures
            step_outcome(old(self).state(), final(self).state(), ProtocolState::Config, result),
    {
        match self.current {
            ProtocolState::Login => {
                self.current = ProtocolState::Config;
                Ok(())
            },
            _ => Err(
                ConnectionStateError::InvalidTransition {
                    from: self.current,
                    to: ProtocolState::Config,
                },
            ),
        }
    }

    /// Goes on to play, which only configuration allows.
    pub fn transition_to_play(&mut self) -> (result: Result<(), ConnectionStateError>)
        ensures
            step_outcome(old(self).state(), final(self).state(), ProtocolState::Play, result),
    {
        match self.current {
            ProtocolState::Config => {
                self.current = ProtocolState::Play;
                Ok(())
            },
            _ => Err(
                ConnectionStateError::InvalidTransition {
                    from: self.current,
                    to: ProtocolState::Play,
                },
            ),
        }
    }
}

impl Default for ConnectionState {
    fn default() -> (c: Self)
        ensures
            c.state() == ProtocolState::Handshake,
    {
        ConnectionState::new()
    }
}

} // verus!
