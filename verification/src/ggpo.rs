//! Errors, events and statistics that a session shows to the game.

use crate::game_input::Frame;
use crate::network::udp::Datagram;
use crate::player::{Player, PlayerHandle};
use bytes::Bytes;
use vstd::prelude::*;

verus! {

/// Why a request to a session was not carried out.
#[derive(Debug, Clone, Copy, PartialEq, Eq, Structural)]
pub enum GGPOError {
    Okay,
    Success,
    GeneralFailure,
    InvalidSession,
    InvalidPlayerHandle,
    PlayerOutOfRange,
    PredictionThreshold,
    Unsupported,
    NotSynchronized,
    InRollback,
    InputDropped,
    PlayerDisconnected,
    TooManySpectators,
    InvalidRequest,
}

impl GGPOError {
    /// The text that describes this error.
    pub fn message(&self) -> (text: &'static str)
        ensures
            text@ == match *self {
                GGPOError::Okay => "GGPO OK."@,
                GGPOError::Success => "GGPO Success."@,
                GGPOError::GeneralFailure => "GGPO general Failure."@,
                GGPOError::InvalidSession => "GGPO invalid session."@,
                GGPOError::InvalidPlayerHandle => "GGPO invalid player handle."@,
                GGPOError::PlayerOutOfRange => "GGPO player out of range."@,
                GGPOError::PredictionThreshold => "GGPO prediction threshold."@,
                GGPOError::Unsupported => "GGPO unsupported."@,
                GGPOError::NotSynchronized => "GGPO not synchronized."@,
                GGPOError::InRollback => "GGPO in rollback."@,
                GGPOError::InputDropped => "GGPO input dropped."@,
                GGPOError::PlayerDisconnected => "GGPO player disconnected."@,
                GGPOError::TooManySpectators => "GGPO too many spectators."@,
                GGPOError::InvalidRequest => "GGPO invalid request."@,
            },
    {
        match self {
            GGPOError::Okay => "GGPO OK.",
            GGPOError::Success => "GGPO Success.",
            GGPOError::GeneralFailure => "GGPO general Failure.",
            GGPOError::InvalidSession => "GGPO invalid session.",
            GGPOError::InvalidPlayerHandle => "GGPO invalid player handle.",
            GGPOError::PlayerOutOfRange => "GGPO player out of range.",
            GGPOError::PredictionThreshold => "GGPO prediction threshold.",
            GGPOError::Unsupported => "GGPO unsupported.",
            GGPOError::NotSynchronized => "GGPO not synchronized.",
            GGPOError::InRollback => "GGPO in rollback.",
            GGPOError::InputDropped => "GGPO input dropped.",
            GGPOError::PlayerDisconnected => "GGPO player disconnected.",
            GGPOError::TooManySpectators => "GGPO too many spectators.",
            GGPOError::InvalidRequest => "GGPO invalid request.",
        }
    }
}

/// Something that happened in a session and that the game is told of.
#[derive(Debug, Clone, Copy, PartialEq, Eq, Structural)]
pub enum Event {
    /// The peer has answered for the first time.
    ConnectedToPeer { player: PlayerHandle },
    /// `count` of the `total` round trips of the handshake are done.
    SynchronizingWithPeer { count: i32, total: i32 },
    /// The handshake with the peer is done.
    SynchronizedWithPeer { player: PlayerHandle },
    /// The handshake with every peer that plays is done: the game can begin.
    Running {  },
    /// The peer was given up, or sent away.
    DisconnectedFromPeer { player: PlayerHandle },
    /// The game should wait for `frames_ahead` frames to let the others
    /// catch up; or, if the number is negative, catch up by as many.
    Timesync { frames_ahead: i32 },
    /// The peer has fallen silent; it is given up unless it is heard of
    /// within `disconnect_timeout` more milliseconds.
    ConnectionInterrupted { player: PlayerHandle, disconnect_timeout: i32 },
    /// The peer is heard of again.
    ConnectionResumed { player: PlayerHandle },
}

/// How the link to one peer is doing.
#[derive(Debug, Clone, Copy, PartialEq, Eq, Structural)]
pub struct Network {
    pub send_queue_len: usize,
    pub recv_queue_len: usize,
    pub ping: usize,
    pub kbps_sent: usize,
}

impl Network {
    /// Statistics of a link over which nothing has passed.
    pub fn new() -> (stats: Self)
        ensures
            stats == (Network { send_queue_len: 0, recv_queue_len: 0, ping: 0, kbps_sent: 0 }),
    {
        Self { send_queue_len: 0, recv_queue_len: 0, ping: 0, kbps_sent: 0 }
    }
}

impl Default for Network {
    fn default() -> (stats: Self)
        ensures
            stats == (Network { send_queue_len: 0, recv_queue_len: 0, ping: 0, kbps_sent: 0 }),
    {
        Network::new()
    }
}

/// How many frames each side of a link lags behind the other.
#[derive(Debug, Clone, Copy, PartialEq, Eq, Structural)]
pub struct TimeSync {
    pub local_frames_behind: i32,
    pub remote_frames_behind: i32,
}

impl TimeSync {
    /// Two sides that run level.
    pub fn new() -> (stats: Self)
        ensures
            stats == (TimeSync { local_frames_behind: 0, remote_frames_behind: 0 }),
    {
        Self { local_frames_behind: 0, remote_frames_behind: 0 }
    }
}

impl Default for TimeSync {
    fn default() -> (stats: Self)
        ensures
            stats == (TimeSync { local_frames_behind: 0, remote_frames_behind: 0 }),
    {
        TimeSync::new()
    }
}

/// A snapshot of one peer's link and timing.
#[derive(Debug, Clone, Copy, PartialEq, Eq, Structural)]
pub struct NetworkStats {
    pub network: Network,
    pub timesync: TimeSync,
}

impl NetworkStats {
    /// The snapshot of a peer of which nothing has been measured.
    pub fn new() -> (stats: Self)
        ensures
            stats.network == (Network { send_queue_len: 0, recv_queue_len: 0, ping: 0, kbps_sent: 0 }),
            stats.timesync == (TimeSync { local_frames_behind: 0, remote_frames_behind: 0 }),
    {
        Self { network: Network::new(), timesync: TimeSync::new() }
    }
}

impl Default for NetworkStats {
    fn default() -> (stats: Self)
        ensures
            stats.network == (Network { send_queue_len: 0, recv_queue_len: 0, ping: 0, kbps_sent: 0 }),
            stats.timesync == (TimeSync { local_frames_behind: 0, remote_frames_behind: 0 }),
    {
        NetworkStats::new()
    }
}

/// What a session asks of the game. The game implements it.
///
/// A session never calls one of these from inside another. Each must be
/// deterministic: the same state and the same inputs give the same state.
/// An answer of `false`, or `None`, gives up the operation that asked.
pub trait GGPOSessionCallbacks: Clone + Sized {
    /// Hands over the whole state in which the simulation of `frame` starts,
    /// with a checksum of it where the game computes one.
    fn save_game_state(&mut self, frame: Frame) -> Option<(Bytes, Option<u32>)>;

    /// Makes the game's state the one that `buffer` holds: a buffer that
    /// `save_game_state` handed over earlier, of `length` bytes.
    fn load_game_state(&mut self, buffer: &Bytes, length: usize) -> bool;

    /// Writes the state in `buffer` out in readable form, for diagnosis.
    fn log_game_state(&mut self, filename: String, buffer: Bytes, length: usize) -> bool;

    /// Tells the game that the session has dropped `buffer`.
    fn free_buffer(&mut self, buffer: &Bytes);

    /// Advances the game's state by exactly one frame, with `inputs[p]` as
    /// the input of player `p`. Bit `p` of `flags` tells that player `p`
    /// takes part no more.
    fn advance_frame(&mut self, inputs: &Vec<Vec<u8>>, flags: i32) -> bool;

    /// Tells the game of something that happened.
    fn on_event(&mut self, info: &Event);
}

/// What one tick of a session hands back: the datagrams to send and the
/// events of the tick, in the order in which the game was told of them.
pub struct PollOutput {
    pub datagrams: Vec<Datagram>,
    pub events: Vec<Event>,
}

/// The requests that a game makes of a session.
///
/// A session performs no I/O of its own: [`Session::do_poll`] is handed what
/// the socket received and hands back what to send.
pub trait Session {
    /// Holds of every session that is handed out.
    spec fn wf(&self) -> bool;

    /// The confirmed watermark of player `player`: the highest frame up to
    /// which the player's input is known for certain, `NULL_FRAME` if none is
    /// or if there is no such player. No request ever lowers it.
    spec fn confirmed_frame(&self, player: int) -> int;

    /// Runs one tick: takes the datagrams that arrived, drives every
    /// connection, replays the simulation where a guess has proved wrong,
    /// and hands back the datagrams to send. `now` is the time in
    /// milliseconds, `nonce` a number drawn at random for this tick.
    fn do_poll(&mut self, now: u64, incoming: Vec<Datagram>, nonce: u32) -> (done: Result<
        PollOutput,
        GGPOError,
    >)
        requires
            old(self).wf(),
        ensures
            final(self).wf(),
            forall|p: int| final(self).confirmed_frame(p) >= old(self).confirmed_frame(p),
    ;

    /// Adds a participant and returns the handle that names it.
    fn add_player(&mut self, player: Player) -> (added: Result<PlayerHandle, GGPOError>)
        requires
            old(self).wf(),
        ensures
            final(self).wf(),
            forall|p: int| final(self).confirmed_frame(p) >= old(self).confirmed_frame(p),
    ;

    /// Takes the input of a local player for the current frame.
    fn add_local_input(&mut self, player: PlayerHandle, values: &Vec<u8>) -> (done: Result<
        (),
        GGPOError,
    >)
        requires
            old(self).wf(),
        ensures
            final(self).wf(),
            forall|p: int| final(self).confirmed_frame(p) >= old(self).confirmed_frame(p),
    ;

    /// Hands out the inputs of all players for the current frame, with the
    /// disconnect flags.
    fn synchronize_input(&mut self) -> (handed: Result<(Vec<Vec<u8>>, i32), GGPOError>)
        requires
            old(self).wf(),
        ensures
            final(self).wf(),
            forall|p: int| final(self).confirmed_frame(p) >= old(self).confirmed_frame(p),
    ;

    /// Moves on to the next frame, once the game has simulated the current
    /// one.
    fn increment_frame(&mut self) -> (done: Result<(), GGPOError>)
        requires
            old(self).wf(),
        ensures
            final(self).wf(),
            forall|p: int| final(self).confirmed_frame(p) >= old(self).confirmed_frame(p),
    ;

    /// Takes a line of chat. No message carries chat, so the line goes
    /// nowhere; the request is accepted all the same.
    fn chat(&mut self, text: String) -> (done: Result<(), GGPOError>)
        requires
            old(self).wf(),
        ensures
            final(self).wf(),
            forall|p: int| final(self).confirmed_frame(p) >= old(self).confirmed_frame(p),
            done.is_ok(),
    ;

    /// Sends a participant away.
    fn disconnect_player(&mut self, handle: PlayerHandle) -> (done: Result<(), GGPOError>)
        requires
            old(self).wf(),
        ensures
            final(self).wf(),
            forall|p: int| final(self).confirmed_frame(p) >= old(self).confirmed_frame(p),
    ;

    /// A snapshot of the link to a participant.
    fn get_network_stats(&self, handle: PlayerHandle) -> (stats: Result<NetworkStats, GGPOError>)
        requires
            self.wf(),
    ;

    /// Takes a line for the log. The session keeps no log; the request is
    /// accepted all the same.
    fn logv(&mut self, fmt: &str) -> (done: Result<(), GGPOError>)
        requires
            old(self).wf(),
        ensures
            final(self).wf(),
            forall|p: int| final(self).confirmed_frame(p) >= old(self).confirmed_frame(p),
            done.is_ok(),
    ;

    /// Puts off the input of a local player by `delay` frames.
    fn set_frame_delay(&mut self, player: PlayerHandle, delay: i32) -> (done: Result<
        (),
        GGPOError,
    >)
        requires
            old(self).wf(),
        ensures
            final(self).wf(),
            forall|p: int| final(self).confirmed_frame(p) >= old(self).confirmed_frame(p),
    ;

    /// Sets after how many silent milliseconds a peer is given up. A peer
    /// is reported as interrupted before it is given up: a time below the
    /// one after which it is reported as interrupted is refused.
    fn set_disconnect_timeout(&mut self, timeout: usize) -> (done: Result<(), GGPOError>)
        requires
            old(self).wf(),
        ensures
            final(self).wf(),
            forall|p: int| final(self).confirmed_frame(p) >= old(self).confirmed_frame(p),
    ;

    /// Sets after how many silent milliseconds a peer is reported as
    /// interrupted. A time above the one after which it is given up is
    /// refused.
    fn set_disconnect_notify_start(&mut self, timeout: usize) -> (done: Result<(), GGPOError>)
        requires
            old(self).wf(),
        ensures
            final(self).wf(),
            forall|p: int| final(self).confirmed_frame(p) >= old(self).confirmed_frame(p),
    ;
}

} // verus!
