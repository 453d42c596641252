//! Rollback networking for peer-to-peer simulations.
//!
//! Every peer runs the same deterministic simulation. A peer never waits for
//! the others: it guesses the input it has not yet received, advances, and
//! when the real input arrives and differs from the guess it restores a saved
//! checkpoint and simulates the frames again.
//!
//! The crate performs no I/O and reads no clock. Datagrams, timestamps and
//! nonces are handed in as plain values and the datagrams to send are handed
//! back, so every rule of the protocol is a function that can be stated and
//! proved.
//!
//! From the bottom up: [`network::udp_msg`] lays messages out as datagrams,
//! [`network::udp_proto`] is the connection to one peer, [`input_queue`] the
//! input history of one player, [`sync`] the manager of histories and
//! checkpoints that decides when to replay, [`time_sync`] the estimate of
//! how far the peers have drifted apart, and [`p2p`] the session that a game
//! talks to, through the requests of [`ggpo::Session`]. The game itself is
//! reached through [`ggpo::GGPOSessionCallbacks`].

pub mod game_input;
pub mod ggpo;
pub mod input_queue;
pub mod network;
pub mod p2p;
pub mod player;
pub mod sync;
pub mod time_sync;
