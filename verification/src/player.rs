//! Players and the handles by which a session names them.

use vstd::prelude::*;

verus! {

/// Where a remote peer receives datagrams: an IPv4 address and a port.
#[derive(Debug, Clone, Copy, PartialEq, Eq, Structural)]
pub struct PeerAddress {
    pub ip: u32,
    pub port: u16,
}

/// One participant of a session.
#[derive(Debug, Clone, Copy, PartialEq, Eq, Structural)]
pub enum Player {
    /// Plays on this machine.
    Local,
    /// Plays on another machine.
    Remote(PeerAddress),
    /// Watches from another machine and contributes no input.
    Spectator(PeerAddress),
}

/// Names one participant for the lifetime of a session.
///
/// Handles below [`SPECTATOR_BASE`] name players, in the order in which they
/// joined; the others name spectators.
#[derive(Debug, Clone, Copy, PartialEq, Eq, Structural)]
pub struct PlayerHandle(pub usize);

/// The handle of the first spectator.
pub const SPECTATOR_BASE: usize = 1000;

impl Player {
    /// The address of a remote participant, `None` for a local one.
    pub fn address(&self) -> (addr: Option<PeerAddress>)
        ensures
            addr == match *self {
                Player::Local => None,
                Player::Remote(a) => Some(a),
                Player::Spectator(a) => Some(a),
            },
    {
        match self {
            Player::Local => None,
            Player::Remote(a) => Some(*a),
            Player::Spectator(a) => Some(*a),
        }
    }
}

} // verus!
