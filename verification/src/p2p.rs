//! The session of a peer that plays: it owns the input histories, the
//! checkpoints and one connection for every remote participant.

use crate::game_input::{Frame, GameInput, GameInputView, NULL_FRAME};
use crate::ggpo::{
    Event, GGPOError, GGPOSessionCallbacks, Network, NetworkStats, PollOutput, Session, TimeSync,
};
use crate::network::udp::{datagram_views, Datagram, DatagramView};
use crate::network::udp_msg::{decode, encode, spec_decode, spec_encode, UdpMsg, UdpMsgView};
use crate::network::udp_proto::{
    disconnections, inputs_in_order, inputs_told, lemma_steps, ConnState, Endpoint, EndpointView, ProtoEvent, ProtoEventView, DEFAULT_DISCONNECT_NOTIFY_START,
    DEFAULT_DISCONNECT_TIMEOUT, DEFAULT_SYNC_ROUND_TRIPS,
};
use crate::player::{PeerAddress, Player, PlayerHandle, SPECTATOR_BASE};
use crate::sync::{SavedState, Sync, SyncView, MAX_PLAYERS};
use crate::time_sync::{TimeSynchronizer, TimeSynchronizerView};
use vstd::prelude::*;

verus! {

/// The most spectators that a session can have.
pub const MAX_SPECTATORS: usize = 32;

/// A remote participant and the connection to it.
pub struct Peer {
    handle: PlayerHandle,
    address: PeerAddress,
    endpoint: Endpoint,
}

/// Mathematical value of a [`Peer`].
pub struct PeerView {
    pub handle: PlayerHandle,
    pub address: PeerAddress,
    pub endpoint: EndpointView,
}

impl View for Peer {
    type V = PeerView;

    closed spec fn view(&self) -> PeerView {
        PeerView { handle: self.handle, address: self.address, endpoint: self.endpoint@ }
    }
}

impl PeerView {
    /// The peer plays; otherwise it watches.
    pub open spec fn is_player(self) -> bool {
        self.handle.0 < SPECTATOR_BASE
    }

    /// This peer with `endpoint` as its connection.
    pub open spec fn with(self, endpoint: EndpointView) -> PeerView {
        PeerView { endpoint, ..self }
    }
}

/// The values of a vector of peers.
pub open spec fn peer_views(v: Seq<Peer>) -> Seq<PeerView> {
    v.map_values(|p: Peer| p@)
}

/// The place of the first peer at `address`, `-1` if there is none.
pub open spec fn index_of_address(peers: Seq<PeerView>, address: PeerAddress) -> int
    decreases peers.len(),
{
    if peers.len() == 0 {
        -1
    } else {
        let before = index_of_address(peers.drop_last(), address);
        if before >= 0 {
            before
        } else if peers.last().address == address {
            peers.len() - 1
        } else {
            -1
        }
    }
}

/// The place of the first peer that `handle` names, `-1` if there is none.
pub open spec fn index_of_handle(peers: Seq<PeerView>, handle: PlayerHandle) -> int
    decreases peers.len(),
{
    if peers.len() == 0 {
        -1
    } else {
        let before = index_of_handle(peers.drop_last(), handle);
        if before >= 0 {
            before
        } else if peers.last().handle == handle {
            peers.len() - 1
        } else {
            -1
        }
    }
}

/// The number of peers that watch.
pub open spec fn spectators(peers: Seq<PeerView>) -> nat
    decreases peers.len(),
{
    if peers.len() == 0 {
        0
    } else {
        spectators(peers.drop_last()) + if peers.last().is_player() {
            0nat
        } else {
            1nat
        }
    }
}

/// `x`, or the largest 32-bit signed number if `x` is beyond it.
pub open spec fn capped_i32(x: int) -> i32 {
    if x > i32::MAX {
        i32::MAX
    } else {
        x as i32
    }
}

/// What the game is told when the connection to the participant that
/// `handle` names reports `e`. Of an input it is told nothing.
pub open spec fn told(handle: PlayerHandle, e: ProtoEventView) -> Option<Event> {
    match e {
        ProtoEventView::Connected => Some(Event::ConnectedToPeer { player: handle }),
        ProtoEventView::Synchronizing { count, total } => Some(
            Event::SynchronizingWithPeer {
                count: capped_i32(count as int),
                total: capped_i32(total as int),
            },
        ),
        ProtoEventView::Synchronized => Some(Event::SynchronizedWithPeer { player: handle }),
        ProtoEventView::Input { .. } => None,
        ProtoEventView::Disconnected => Some(Event::DisconnectedFromPeer { player: handle }),
        ProtoEventView::NetworkInterrupted { disconnect_timeout } => Some(
            Event::ConnectionInterrupted {
                player: handle,
                disconnect_timeout: capped_i32(disconnect_timeout as int),
            },
        ),
        ProtoEventView::NetworkResumed => Some(Event::ConnectionResumed { player: handle }),
    }
}

/// The manager after the connection to the participant that `handle` names
/// reported `e`: the input of a player is taken as confirmed, a player whose
/// connection was given up takes part no more.
pub open spec fn absorbed(sync: SyncView, handle: PlayerHandle, e: ProtoEventView) -> SyncView {
    if handle.0 >= SPECTATOR_BASE {
        sync
    } else {
        match e {
            ProtoEventView::Input { frame, bits } => sync.after_remote_input(
                handle.0 as int,
                frame as int,
                bits,
            ),
            ProtoEventView::Disconnected => if handle.0 < sync.slots.len()
                && sync.slots[handle.0 as int].connected {
                SyncView {
                    slots: sync.slots.update(
                        handle.0 as int,
                        crate::sync::Slot { connected: false, ..sync.slots[handle.0 as int] },
                    ),
                    ..sync
                }
            } else {
                sync
            },
            _ => sync,
        }
    }
}

/// The manager after the connection reported each of `events` in turn.
pub open spec fn absorbed_all(sync: SyncView, handle: PlayerHandle, events: Seq<ProtoEventView>) -> SyncView
    decreases events.len(),
{
    if events.len() == 0 {
        sync
    } else {
        absorbed(absorbed_all(sync, handle, events.drop_last()), handle, events.last())
    }
}

/// What the game is told when the connection reports each of `events` in
/// turn.
pub open spec fn told_all(handle: PlayerHandle, events: Seq<ProtoEventView>) -> Seq<Event>
    decreases events.len(),
{
    if events.len() == 0 {
        Seq::empty()
    } else {
        match told(handle, events.last()) {
            Some(e) => told_all(handle, events.drop_last()).push(e),
            None => told_all(handle, events.drop_last()),
        }
    }
}

/// The manager after every peer's connection reported its events, peer by
/// peer.
pub open spec fn absorbed_peers(sync: SyncView, peers: Seq<PeerView>) -> SyncView
    decreases peers.len(),
{
    if peers.len() == 0 {
        sync
    } else {
        absorbed_all(
            absorbed_peers(sync, peers.drop_last()),
            peers.last().handle,
            peers.last().endpoint.events,
        )
    }
}

/// What the game is told when every peer's connection reports its events,
/// peer by peer.
pub open spec fn told_peers(peers: Seq<PeerView>) -> Seq<Event>
    decreases peers.len(),
{
    if peers.len() == 0 {
        Seq::empty()
    } else {
        told_peers(peers.drop_last()) + told_all(peers.last().handle, peers.last().endpoint.events)
    }
}

/// The peers after the datagram `d` arrived at `now`: the peer at the
/// address it came from takes the message that it carries. A datagram from
/// elsewhere, or one that carries no message, is dropped.
pub open spec fn deliver(peers: Seq<PeerView>, d: DatagramView, now: u64) -> Seq<PeerView> {
    let i = index_of_address(peers, d.address);
    match spec_decode(d.payload) {
        Some(m) => if i >= 0 {
            peers.update(i, peers[i].with(peers[i].endpoint.on_message(m, now)))
        } else {
            peers
        },
        None => peers,
    }
}

/// The peers after each of `incoming` arrived in turn.
pub open spec fn deliver_all(peers: Seq<PeerView>, incoming: Seq<DatagramView>, now: u64) -> Seq<
    PeerView,
>
    decreases incoming.len(),
{
    if incoming.len() == 0 {
        peers
    } else {
        deliver(deliver_all(peers, incoming.drop_last(), now), incoming.last(), now)
    }
}

/// The peers after the tick at `now`, the session being at `frame`.
pub open spec fn ticked(peers: Seq<PeerView>, frame: Frame, now: u64, nonce: u32) -> Seq<PeerView> {
    peers.map_values(|p: PeerView| p.with(p.endpoint.note_local_frame(frame).poll(now, nonce)))
}

/// The datagrams that carry the messages which wait in the connection of
/// `p`.
pub open spec fn outgoing_of(p: PeerView) -> Seq<DatagramView> {
    p.endpoint.outbox.map_values(
        |m: UdpMsgView| DatagramView { address: p.address, payload: spec_encode(m) },
    )
}

/// The datagrams that carry the messages which wait in the connections,
/// peer by peer.
pub open spec fn outgoing(peers: Seq<PeerView>) -> Seq<DatagramView>
    decreases peers.len(),
{
    if peers.len() == 0 {
        Seq::empty()
    } else {
        outgoing(peers.drop_last()) + outgoing_of(peers.last())
    }
}

/// The peers with nothing waiting in their connections.
pub open spec fn drained(peers: Seq<PeerView>) -> Seq<PeerView> {
    peers.map_values(
        |p: PeerView|
            p.with(EndpointView { outbox: Seq::empty(), events: Seq::empty(), ..p.endpoint }),
    )
}

/// The synchronizer after every running connection to a player reported how
/// the two sides lag.
pub open spec fn reported(ts: TimeSynchronizerView, peers: Seq<PeerView>) -> TimeSynchronizerView
    decreases peers.len(),
{
    if peers.len() == 0 {
        ts
    } else {
        let before = reported(ts, peers.drop_last());
        let p = peers.last();
        if p.is_player() && p.endpoint.exchanging() {
            before.report(p.endpoint.local_frames_behind, p.endpoint.remote_frames_behind)
        } else {
            before
        }
    }
}

/// Mathematical value of a [`P2PSession`], the game's callbacks apart.
pub struct SessionView {
    pub sync: SyncView,
    pub peers: Seq<PeerView>,
    pub time_sync: TimeSynchronizerView,
    /// The time of the last tick.
    pub clock: u64,
    /// The most players that may join.
    pub max_players: nat,
    pub sync_round_trips: u32,
    pub disconnect_timeout: u64,
    pub disconnect_notify_start: u64,
    /// The game was told that the session runs.
    pub running_announced: bool,
}

impl SessionView {
    /// The parts of a session fit together: what every step of a request
    /// keeps.
    pub open spec fn sound(self) -> bool {
        &&& self.sync.wf()
        &&& self.time_sync.wf()
        &&& self.max_players <= MAX_PLAYERS
        &&& self.sync.queues.len() <= self.max_players
        &&& self.sync_round_trips >= 1
        &&& spectators(self.peers) <= MAX_SPECTATORS
        &&& forall|i: int|
            0 <= i < self.peers.len() ==> {
                let p = #[trigger] self.peers[i];
                &&& p.endpoint.wf()
                &&& p.endpoint.input_size == self.sync.input_size
                &&& p.is_player() ==> p.handle.0 < self.sync.queues.len()
                    && self.sync.slots[p.handle.0 as int].remote
            }
    }

    /// No two peers share a handle or an address.
    pub open spec fn distinct(self) -> bool {
        forall|i: int, j: int|
            #![trigger self.peers[i], self.peers[j]]
            0 <= i < j < self.peers.len() ==> self.peers[i].handle != self.peers[j].handle
                && self.peers[i].address != self.peers[j].address
    }

    /// The spectators carry the handles from `SPECTATOR_BASE` on.
    pub open spec fn spectators_numbered(self) -> bool {
        forall|i: int|
            0 <= i < self.peers.len() && !(#[trigger] self.peers[i]).is_player()
                ==> self.peers[i].handle.0 < SPECTATOR_BASE + spectators(self.peers)
    }

    /// A peer is reported as interrupted before it is given up, and every
    /// connection has the timeouts of the session.
    pub open spec fn timeouts_agree(self) -> bool {
        &&& self.disconnect_notify_start <= self.disconnect_timeout
        &&& forall|i: int|
            0 <= i < self.peers.len() ==> (#[trigger] self.peers[i]).endpoint.disconnect_timeout
                == self.disconnect_timeout && self.peers[i].endpoint.disconnect_notify_start
                == self.disconnect_notify_start
    }

    /// A remote player takes part exactly as long as the connection to it
    /// was not given up.
    pub open spec fn flags_agree(self) -> bool {
        forall|i: int|
            0 <= i < self.peers.len() && (#[trigger] self.peers[i]).is_player() ==> (
            self.sync.slots[self.peers[i].handle.0 as int].connected <==> self.peers[i].endpoint.state
                != ConnState::Disconnected)
    }

    /// Every remote player has a connection.
    pub open spec fn remotes_have_peers(self) -> bool {
        forall|q: int|
            0 <= q < self.sync.slots.len() && (#[trigger] self.sync.slots[q]).remote ==> exists|
                i: int,
            |
                0 <= i < self.peers.len() && (#[trigger] self.peers[i]).handle.0 == q
    }

    /// Every input that the connection to a remote player has taken, and
    /// so has acknowledged to the peer, is confirmed in the player's history:
    /// the highest frame taken is the confirmed watermark, and no input waits
    /// to be fetched.
    pub open spec fn inputs_agree(self) -> bool {
        forall|i: int|
            0 <= i < self.peers.len() && (#[trigger] self.peers[i]).is_player() ==> {
                &&& self.peers[i].endpoint.last_received_frame + 1
                    == self.sync.queues[self.peers[i].handle.0 as int].confirmed.len()
                &&& inputs_told(self.peers[i].endpoint.events) == 0
            }
    }

    /// Holds of every session between two requests.
    pub open spec fn wf(self) -> bool {
        &&& self.sound()
        &&& self.distinct()
        &&& self.spectators_numbered()
        &&& self.timeouts_agree()
        &&& self.flags_agree()
        &&& self.remotes_have_peers()
        &&& self.inputs_agree()
    }

    /// The game has begun: participants can join no more.
    pub open spec fn started(self) -> bool {
        self.sync.current_frame > 0 || self.sync.checkpoints.len() > 0
    }

    /// The handshake with a peer that plays is not done.
    pub open spec fn not_synchronized(self) -> bool {
        exists|i: int|
            0 <= i < self.peers.len() && (#[trigger] self.peers[i]).is_player()
                && self.peers[i].endpoint.syncing()
    }

    /// The connection of a peer that joins now.
    pub open spec fn fresh_endpoint(self) -> EndpointView {
        EndpointView {
            state: ConnState::Initializing,
            input_size: self.sync.input_size,
            sync_total: self.sync_round_trips,
            sync_count: 0,
            awaiting: false,
            nonce: 0,
            last_sync_send: 0,
            round_trip_time: 0,
            next_sequence: 0,
            last_processed: None,
            pending: Seq::empty(),
            last_acked_frame: NULL_FRAME,
            last_received_frame: NULL_FRAME,
            ack_due: false,
            local_frames_behind: 0,
            remote_frames_behind: 0,
            disconnect_timeout: self.disconnect_timeout,
            disconnect_notify_start: self.disconnect_notify_start,
            last_recv_time: 0,
            last_send_time: 0,
            retransmit_interval: crate::network::udp_proto::RETRANSMIT_INTERVAL,
            last_retransmit: 0,
            last_quality_report: 0,
            bytes_sent: 0,
            running_since: 0,
            outbox: Seq::empty(),
            events: Seq::empty(),
        }
    }

    /// What [`Session::add_player`] answers.
    pub open spec fn add_player_result(self, player: Player) -> Result<PlayerHandle, GGPOError> {
        if self.started() {
            Err(GGPOError::InvalidRequest)
        } else {
            match player {
                Player::Local => if self.sync.queues.len() >= self.max_players {
                    Err(GGPOError::PlayerOutOfRange)
                } else {
                    Ok(PlayerHandle(self.sync.queues.len() as usize))
                },
                Player::Remote(address) => if index_of_address(self.peers, address) >= 0 {
                    Err(GGPOError::InvalidRequest)
                } else if self.sync.queues.len() >= self.max_players {
                    Err(GGPOError::PlayerOutOfRange)
                } else {
                    Ok(PlayerHandle(self.sync.queues.len() as usize))
                },
                Player::Spectator(address) => if index_of_address(self.peers, address) >= 0 {
                    Err(GGPOError::InvalidRequest)
                } else if spectators(self.peers) >= MAX_SPECTATORS {
                    Err(GGPOError::TooManySpectators)
                } else {
                    Ok(PlayerHandle((SPECTATOR_BASE + spectators(self.peers)) as usize))
                },
            }
        }
    }

    /// The session after [`Session::add_player`].
    pub open spec fn after_add_player(self, player: Player) -> SessionView {
        match self.add_player_result(player) {
            Err(_) => self,
            Ok(handle) => {
                let sync = if player is Spectator {
                    self.sync
                } else {
                    SyncView {
                        queues: self.sync.queues.push(
                            crate::input_queue::InputQueueView {
                                input_size: self.sync.input_size,
                                confirmed: Seq::empty(),
                                predicted: Seq::empty(),
                                first_incorrect: NULL_FRAME as int,
                            },
                        ),
                        slots: self.sync.slots.push(
                            crate::sync::Slot {
                                remote: player is Remote,
                                connected: true,
                                frame_delay: 0,
                            },
                        ),
                        ..self.sync
                    }
                };
                let peers = match player {
                    Player::Local => self.peers,
                    Player::Remote(address) => self.peers.push(
                        PeerView { handle, address, endpoint: self.fresh_endpoint() },
                    ),
                    Player::Spectator(address) => self.peers.push(
                        PeerView { handle, address, endpoint: self.fresh_endpoint() },
                    ),
                };
                SessionView { sync, peers, ..self }
            },
        }
    }

    /// What [`Session::disconnect_player`] answers.
    pub open spec fn disconnect_result(self, handle: PlayerHandle) -> Result<(), GGPOError> {
        let i = index_of_handle(self.peers, handle);
        if i < 0 {
            if handle.0 < self.sync.queues.len() {
                Err(GGPOError::InvalidRequest)
            } else {
                Err(GGPOError::InvalidPlayerHandle)
            }
        } else if self.peers[i].endpoint.state == ConnState::Disconnected {
            Err(GGPOError::PlayerDisconnected)
        } else {
            Ok(())
        }
    }

    /// The session after [`Session::disconnect_player`].
    pub open spec fn after_disconnect(self, handle: PlayerHandle) -> SessionView {
        let i = index_of_handle(self.peers, handle);
        if self.disconnect_result(handle).is_ok() {
            SessionView {
                peers: self.peers.update(i, self.peers[i].with(self.peers[i].endpoint.disconnect())),
                sync: if self.peers[i].is_player() && self.sync.slots[handle.0 as int].connected {
                    SyncView {
                        slots: self.sync.slots.update(
                            handle.0 as int,
                            crate::sync::Slot {
                                connected: false,
                                ..self.sync.slots[handle.0 as int]
                            },
                        ),
                        ..self.sync
                    }
                } else {
                    self.sync
                },
                ..self
            }
        } else {
            self
        }
    }

    /// What [`Session::get_network_stats`] answers.
    pub open spec fn network_stats(self, handle: PlayerHandle) -> Result<NetworkStats, GGPOError> {
        let i = index_of_handle(self.peers, handle);
        if i < 0 {
            if handle.0 < self.sync.queues.len() {
                Ok(
                    NetworkStats {
                        network: Network {
                            send_queue_len: 0,
                            recv_queue_len: 0,
                            ping: 0,
                            kbps_sent: 0,
                        },
                        timesync: TimeSync { local_frames_behind: 0, remote_frames_behind: 0 },
                    },
                )
            } else {
                Err(GGPOError::InvalidPlayerHandle)
            }
        } else {
            Ok(
                NetworkStats {
                    network: self.peers[i].endpoint.stats(self.clock),
                    timesync: TimeSync {
                        local_frames_behind: self.peers[i].endpoint.local_frames_behind,
                        remote_frames_behind: self.peers[i].endpoint.remote_frames_behind,
                    },
                },
            )
        }
    }

    /// What [`Session::set_frame_delay`] answers.
    pub open spec fn frame_delay_result(self, handle: PlayerHandle, delay: i32) -> Result<
        (),
        GGPOError,
    > {
        if handle.0 >= self.sync.queues.len() || self.sync.slots[handle.0 as int].remote {
            Err(GGPOError::InvalidPlayerHandle)
        } else if delay < 0 {
            Err(GGPOError::InvalidRequest)
        } else {
            Ok(())
        }
    }

    /// The local inputs that became known between two values of a history,
    /// oldest first.
    pub open spec fn fresh_inputs(
        before: crate::input_queue::InputQueueView,
        after: crate::input_queue::InputQueueView,
    ) -> Seq<GameInputView> {
        Seq::new(
            (after.confirmed.len() - before.confirmed.len()) as nat,
            |k: int|
                GameInputView {
                    frame: (before.confirmed.len() + k) as Frame,
                    bits: after.confirmed[before.confirmed.len() + k],
                },
        )
    }

    /// The peers after `inputs` were passed on to every peer that plays.
    pub open spec fn broadcast(self, inputs: Seq<GameInputView>) -> Seq<PeerView> {
        self.peers.map_values(
            |p: PeerView|
                if p.is_player() {
                    p.with(p.endpoint.send_all(inputs, self.clock))
                } else {
                    p
                },
        )
    }

    /// How [`Session::add_local_input`] judges a request, before the game is
    /// asked for anything.
    pub open spec fn local_input_result(self, handle: PlayerHandle, bits: Seq<u8>) -> Result<
        (),
        GGPOError,
    > {
        if self.not_synchronized() {
            Err(GGPOError::NotSynchronized)
        } else if handle.0 >= self.sync.queues.len() {
            Err(GGPOError::InvalidPlayerHandle)
        } else {
            match self.sync.local_input_result(handle.0 as int, bits) {
                Ok(_) => Ok(()),
                Err(e) => Err(e),
            }
        }
    }

    /// The session after [`Session::add_local_input`] took an input, its
    /// checkpoints apart.
    pub open spec fn after_local_input(self, handle: PlayerHandle, bits: Seq<u8>) -> SessionView {
        if self.local_input_result(handle, bits).is_ok() {
            let sync = self.sync.after_local_input(handle.0 as int, bits);
            SessionView {
                sync,
                peers: self.broadcast(
                    Self::fresh_inputs(
                        self.sync.queues[handle.0 as int],
                        sync.queues[handle.0 as int],
                    ),
                ),
                ..self
            }
        } else {
            self
        }
    }

    /// The confirmed watermark of player `p`, `NULL_FRAME` if there is no
    /// such player.
    pub open spec fn confirmed_frame(self, p: int) -> int {
        if 0 <= p < self.sync.queues.len() {
            self.sync.queues[p].last_confirmed()
        } else {
            NULL_FRAME as int
        }
    }

    /// The game is told that the session runs after the tick that leaves the
    /// connections as `peers`: it was not told before, and the handshake with
    /// every peer that plays is done.
    pub open spec fn announces(self, peers: Seq<PeerView>) -> bool {
        !self.running_announced && !(SessionView { peers, ..self }).not_synchronized()
    }

    /// The session with every connection changed by `change`.
    pub open spec fn with_endpoints(self, change: spec_fn(EndpointView) -> EndpointView) -> SessionView {
        SessionView {
            peers: self.peers.map_values(|p: PeerView| p.with(change(p.endpoint))),
            ..self
        }
    }
}

/// A session of a peer that plays. `C` is the game.
pub struct P2PSession<C: GGPOSessionCallbacks> {
    callbacks: C,
    sync: Sync,
    peers: Vec<Peer>,
    time_sync: TimeSynchronizer,
    clock: u64,
    max_players: usize,
    sync_round_trips: u32,
    disconnect_timeout: u64,
    disconnect_notify_start: u64,
    running_announced: bool,
}

impl<C: GGPOSessionCallbacks> View for P2PSession<C> {
    type V = SessionView;

    closed spec fn view(&self) -> SessionView {
        SessionView {
            sync: self.sync@,
            peers: peer_views(self.peers@),
            time_sync: self.time_sync@,
            clock: self.clock,
            max_players: self.max_players as nat,
            sync_round_trips: self.sync_round_trips,
            disconnect_timeout: self.disconnect_timeout,
            disconnect_notify_start: self.disconnect_notify_start,
            running_announced: self.running_announced,
        }
    }
}

proof fn lemma_peer_views_update(v: Seq<Peer>, i: int, p: Peer)
    requires
        0 <= i < v.len(),
    ensures
        peer_views(v.update(i, p)) == peer_views(v).update(i, p@),
{
    assert(peer_views(v.update(i, p)) =~= peer_views(v).update(i, p@));
}

proof fn lemma_peer_views_push(v: Seq<Peer>, p: Peer)
    ensures
        peer_views(v.push(p)) == peer_views(v).push(p@),
        peer_views(v.push(p)).drop_last() == peer_views(v),
{
    assert(peer_views(v.push(p)) =~= peer_views(v).push(p@));
    assert(peer_views(v.push(p)).drop_last() =~= peer_views(v));
}

impl<C: GGPOSessionCallbacks> P2PSession<C> {
    /// A session without participants for the game `callbacks`: up to
    /// `max_players` players with inputs of `input_size` bytes, a prediction
    /// window of `prediction_window` frames and up to `max_checkpoints` saved
    /// states.
    ///
    /// Refused with `InvalidRequest`: more players than `MAX_PLAYERS`, a
    /// negative window, a list of no checkpoints.
    pub fn new(
        callbacks: C,
        max_players: usize,
        input_size: usize,
        prediction_window: i32,
        max_checkpoints: usize,
    ) -> (made: Result<Self, GGPOError>)
        ensures
            made.is_ok() <==> max_players <= MAX_PLAYERS && prediction_window >= 0
                && max_checkpoints >= 1,
            made.is_err() ==> made.err().unwrap() == GGPOError::InvalidRequest,
            made.is_ok() ==> made.unwrap().game() == callbacks,
            made.is_ok() ==> made.unwrap()@.wf() && made.unwrap()@ == (SessionView {
                sync: SyncView {
                    input_size: input_size as nat,
                    prediction_window: prediction_window as int,
                    max_checkpoints: max_checkpoints as nat,
                    queues: Seq::empty(),
                    slots: Seq::empty(),
                    current_frame: 0,
                    checkpoints: Seq::empty(),
                    in_rollback: false,
                },
                peers: Seq::empty(),
                time_sync: TimeSynchronizerView {
                    window: Seq::empty(),
                    pending: None,
                    sustained: 0,
                    quiet_until: 0,
                },
                clock: 0,
                max_players: max_players as nat,
                sync_round_trips: DEFAULT_SYNC_ROUND_TRIPS,
                disconnect_timeout: DEFAULT_DISCONNECT_TIMEOUT,
                disconnect_notify_start: DEFAULT_DISCONNECT_NOTIFY_START,
                running_announced: false,
            }),
    {
        if max_players > MAX_PLAYERS {
            return Err(GGPOError::InvalidRequest);
        }
        let sync = match Sync::new(input_size, prediction_window, max_checkpoints) {
            Ok(sync) => sync,
            Err(e) => {
                return Err(e);
            },
        };
        let made = P2PSession {
            callbacks,
            sync,
            peers: Vec::new(),
            time_sync: TimeSynchronizer::new(),
            clock: 0,
            max_players,
            sync_round_trips: DEFAULT_SYNC_ROUND_TRIPS,
            disconnect_timeout: DEFAULT_DISCONNECT_TIMEOUT,
            disconnect_notify_start: DEFAULT_DISCONNECT_NOTIFY_START,
            running_announced: false,
        };
        proof {
            assert(made@.peers =~= Seq::empty());
        }
        Ok(made)
    }

    /// The game as the session holds it. The session hands it to no one;
    /// it changes when the session calls it, and only then.
    pub closed spec fn game(&self) -> C {
        self.callbacks
    }

    /// The game.
    pub fn callbacks(&self) -> (game: &C)
        ensures
            *game == self.game(),
    {
        &self.callbacks
    }

    /// Checks that the game is deterministic, by replaying the last frames
    /// and comparing checksums (see [`Sync::check_determinism`]).
    pub fn check_determinism(&mut self, frames: usize) -> (done: Result<usize, GGPOError>)
        requires
            old(self)@.wf(),
        ensures
            final(self)@.wf(),
            final(self)@ == (SessionView { sync: final(self)@.sync, ..old(self)@ }),
            old(self)@.sync.rolling_back() ==> done == Err::<usize, GGPOError>(
                GGPOError::InRollback,
            ) && final(self)@ == old(self)@ && final(self).game() == old(self).game(),
            !old(self)@.sync.rolling_back() ==> {
                let sync = old(self)@.sync;
                let back = sync.current_frame - frames;
                let i = crate::sync::newest_at_or_before(sync.checkpoints, back);
                match done {
                    Ok(steps) => if back < 0 || i < 0 {
                        steps == 0 && final(self)@ == old(self)@ && final(self).game() == old(self).game()
                    } else {
                        &&& i < sync.checkpoints.len()
                        &&& steps == sync.current_frame - sync.checkpoints[i].frame
                        &&& final(self)@.sync == (SyncView {
                            queues: sync.replayed_queues(i),
                            checkpoints: final(self)@.sync.checkpoints,
                            ..sync
                        })
                    },
                    Err(e) => back >= 0 && i >= 0 && e == GGPOError::GeneralFailure && final(self)@.sync.in_rollback,
                }
            },
            forall|p: int| final(self)@.confirmed_frame(p) == old(self)@.confirmed_frame(p),
    {
        let done = self.sync.check_determinism(&mut self.callbacks, frames);
        proof {
            sync_kept_by_replay(old(self)@, self@.sync);
        }
        done
    }

    /// The frame that is simulated next.
    pub fn current_frame(&self) -> (frame: Frame)
        ensures
            frame == self@.sync.current_frame,
    {
        self.sync.current_frame()
    }

    /// The input histories and checkpoints.
    pub fn sync(&self) -> (sync: &Sync)
        ensures
            sync@ == self@.sync,
    {
        &self.sync
    }

    /// The number of remote participants.
    pub fn num_peers(&self) -> (n: usize)
        ensures
            n == self@.peers.len(),
    {
        self.peers.len()
    }

    /// The state of the connection to the participant that `handle` names,
    /// `None` if it names no remote participant.
    pub fn connection_state(&self, handle: PlayerHandle) -> (state: Option<ConnState>)
        ensures
            state == if index_of_handle(self@.peers, handle) >= 0 {
                Some(self@.peers[index_of_handle(self@.peers, handle)].endpoint.state)
            } else {
                None
            },
    {
        match self.find_handle(handle) {
            Some(i) => Some(self.peers[i].endpoint.state()),
            None => None,
        }
    }

    fn find_address(&self, address: PeerAddress) -> (found: Option<usize>)
        ensures
            match found {
                Some(i) => i == index_of_address(self@.peers, address) && i < self@.peers.len(),
                None => index_of_address(self@.peers, address) == -1,
            },
    {
        let mut i: usize = 0;
        while i < self.peers.len()
            invariant
                i <= self.peers.len(),
                index_of_address(self@.peers.subrange(0, i as int), address) == -1,
            decreases self.peers.len() - i,
        {
            proof {
                let longer = self@.peers.subrange(0, i + 1);
                assert(longer.drop_last() =~= self@.peers.subrange(0, i as int));
                assert(longer.last() == self.peers@[i as int]@);
            }
            if self.peers[i].address == address {
                proof {
                    lemma_index_of_address_prefix(self@.peers, address, i + 1);
                }
                return Some(i);
            }
            i += 1;
        }
        assert(self@.peers.subrange(0, self.peers.len() as int) =~= self@.peers);
        None
    }

    fn find_handle(&self, handle: PlayerHandle) -> (found: Option<usize>)
        ensures
            match found {
                Some(i) => i == index_of_handle(self@.peers, handle) && i < self@.peers.len(),
                None => index_of_handle(self@.peers, handle) == -1,
            },
    {
        let mut i: usize = 0;
        while i < self.peers.len()
            invariant
                i <= self.peers.len(),
                index_of_handle(self@.peers.subrange(0, i as int), handle) == -1,
            decreases self.peers.len() - i,
        {
            proof {
                let longer = self@.peers.subrange(0, i + 1);
                assert(longer.drop_last() =~= self@.peers.subrange(0, i as int));
                assert(longer.last() == self.peers@[i as int]@);
            }
            if self.peers[i].handle == handle {
                proof {
                    lemma_index_of_handle_prefix(self@.peers, handle, i + 1);
                }
                return Some(i);
            }
            i += 1;
        }
        assert(self@.peers.subrange(0, self.peers.len() as int) =~= self@.peers);
        None
    }

    fn count_spectators(&self) -> (n: usize)
        ensures
            n == spectators(self@.peers),
    {
        let mut n: usize = 0;
        let mut i: usize = 0;
        while i < self.peers.len()
            invariant
                i <= self.peers.len(),
                n <= i,
                n == spectators(self@.peers.subrange(0, i as int)),
            decreases self.peers.len() - i,
        {
            proof {
                let longer = self@.peers.subrange(0, i + 1);
                assert(longer.drop_last() =~= self@.peers.subrange(0, i as int));
                assert(longer.last() == self.peers@[i as int]@);
            }
            if self.peers[i].handle.0 >= SPECTATOR_BASE {
                n += 1;
            }
            i += 1;
        }
        assert(self@.peers.subrange(0, self.peers.len() as int) =~= self@.peers);
        n
    }

    fn is_not_synchronized(&self) -> (yes: bool)
        ensures
            yes == self@.not_synchronized(),
    {
        let mut i: usize = 0;
        while i < self.peers.len()
            invariant
                i <= self.peers.len(),
                forall|k: int|
                    0 <= k < i ==> !((#[trigger] self@.peers[k]).is_player()
                        && self@.peers[k].endpoint.syncing()),
            decreases self.peers.len() - i,
        {
            assert(self@.peers[i as int] == self.peers@[i as int]@);
            if self.peers[i].handle.0 < SPECTATOR_BASE && !self.peers[i].endpoint.is_synchronized()
                && self.peers[i].endpoint.state() != ConnState::Disconnected {
                return true;
            }
            i += 1;
        }
        false
    }
}

/// The first peer at an address within the first `n` peers is the first one
/// of all.
pub proof fn lemma_index_of_address_prefix(peers: Seq<PeerView>, address: PeerAddress, n: int)
    requires
        0 <= n <= peers.len(),
        index_of_address(peers.subrange(0, n), address) >= 0,
    ensures
        index_of_address(peers, address) == index_of_address(peers.subrange(0, n), address),
    decreases peers.len() - n,
{
    if n < peers.len() {
        let longer = peers.subrange(0, n + 1);
        assert(longer.drop_last() =~= peers.subrange(0, n));
        lemma_index_of_address_prefix(peers, address, n + 1);
    } else {
        assert(peers.subrange(0, n) =~= peers);
    }
}

/// The first peer of a handle within the first `n` peers is the first one of
/// all.
pub proof fn lemma_index_of_handle_prefix(peers: Seq<PeerView>, handle: PlayerHandle, n: int)
    requires
        0 <= n <= peers.len(),
        index_of_handle(peers.subrange(0, n), handle) >= 0,
    ensures
        index_of_handle(peers, handle) == index_of_handle(peers.subrange(0, n), handle),
    decreases peers.len() - n,
{
    if n < peers.len() {
        let longer = peers.subrange(0, n + 1);
        assert(longer.drop_last() =~= peers.subrange(0, n));
        lemma_index_of_handle_prefix(peers, handle, n + 1);
    } else {
        assert(peers.subrange(0, n) =~= peers);
    }
}

impl<C: GGPOSessionCallbacks> P2PSession<C> {
    fn fresh_local_inputs(&self, p: usize, from: Frame, to: Frame) -> (out: Vec<GameInput>)
        requires
            self@.sync.wf(),
            p < self@.sync.queues.len(),
            0 <= from,
            from <= to + 1,
            to < self@.sync.queues[p as int].confirmed.len(),
        ensures
            crate::network::udp_proto::input_views(out@) == Seq::new(
                (to + 1 - from) as nat,
                |k: int|
                    GameInputView {
                        frame: (from + k) as Frame,
                        bits: self@.sync.queues[p as int].confirmed[from + k],
                    },
            ),
    {
        let mut out: Vec<GameInput> = Vec::new();
        let mut f: i64 = from as i64;
        let ghost goal = Seq::new(
            (to + 1 - from) as nat,
            |k: int|
                GameInputView {
                    frame: (from + k) as Frame,
                    bits: self@.sync.queues[p as int].confirmed[from + k],
                },
        );
        while f <= to as i64
            invariant
                self@.sync.wf(),
                p < self@.sync.queues.len(),
                0 <= from <= f <= to + 1,
                to < self@.sync.queues[p as int].confirmed.len(),
                goal.len() == to + 1 - from,
                forall|k: int|
                    0 <= k < goal.len() ==> #[trigger] goal[k] == (GameInputView {
                        frame: (from + k) as Frame,
                        bits: self@.sync.queues[p as int].confirmed[from + k],
                    }),
                out@.len() == f - from,
                forall|k: int| 0 <= k < out@.len() ==> (#[trigger] out@[k])@ == goal[k],
            decreases to + 1 - f,
        {
            let bits = match self.sync.confirmed_input(p, f as Frame) {
                Some(bits) => bits,
                None => Vec::new(),
            };
            out.push(GameInput { frame: f as Frame, bits });
            f = f + 1;
        }
        assert(crate::network::udp_proto::input_views(out@) =~= goal);
        out
    }

    fn broadcast(&mut self, inputs: &Vec<GameInput>)
        requires
            old(self)@.sound(),
        ensures
            final(self)@.sound(),
            final(self).game() == old(self).game(),
            final(self)@ == (SessionView {
                peers: old(self)@.broadcast(crate::network::udp_proto::input_views(inputs@)),
                ..old(self)@
            }),
    {
        let now = self.clock;
        let ghost goal = old(self)@.broadcast(crate::network::udp_proto::input_views(inputs@));
        let mut i: usize = 0;
        while i < self.peers.len()
            invariant
                i <= self.peers.len(),
                self@.sound(),
                self.game() == old(self).game(),
                now == old(self)@.clock,
                goal == old(self)@.broadcast(crate::network::udp_proto::input_views(inputs@)),
                self.peers@.len() == old(self)@.peers.len(),
                self@ == (SessionView { peers: self@.peers, ..old(self)@ }),
                forall|k: int| 0 <= k < i ==> #[trigger] self@.peers[k] == goal[k],
                forall|k: int|
                    i <= k < self.peers.len() ==> #[trigger] self@.peers[k] == old(self)@.peers[k],
            decreases self.peers.len() - i,
        {
            let ghost before = self.peers@;
            assert(self@.peers[i as int] == self.peers@[i as int]@);
            if self.peers[i].handle.0 < SPECTATOR_BASE {
                self.peers[i].endpoint.send_inputs(inputs, now);
            }
            proof {
                crate::network::udp_proto::lemma_send_all(
                    old(self)@.peers[i as int].endpoint,
                    crate::network::udp_proto::input_views(inputs@),
                    now,
                );
                lemma_peer_views_update(before, i as int, self.peers@[i as int]);
                assert(self.peers@ =~= before.update(i as int, self.peers@[i as int]));
                lemma_spectators_same_handles(peer_views(before), self@.peers);
            }
            i += 1;
        }
        proof {
            assert(self@.peers =~= goal);
        }
    }
}

/// The number of spectators depends on the handles alone.
pub proof fn lemma_spectators_same_handles(a: Seq<PeerView>, b: Seq<PeerView>)
    requires
        a.len() == b.len(),
        forall|i: int| 0 <= i < a.len() ==> (#[trigger] a[i]).handle == b[i].handle,
    ensures
        spectators(a) == spectators(b),
    decreases a.len(),
{
    if a.len() > 0 {
        let x = a.drop_last();
        let y = b.drop_last();
        assert forall|i: int| 0 <= i < x.len() implies (#[trigger] x[i]).handle == y[i].handle by {
            assert(x[i] == a[i]);
            assert(y[i] == b[i]);
        }
        lemma_spectators_same_handles(x, y);
        assert(a.last() == a[a.len() - 1]);
        assert(b.last() == b[a.len() - 1]);
    }
}

/// A session stays well-formed when its connections change but keep their
/// participants and the length of their inputs.
pub proof fn lemma_peers_changed(v: SessionView, peers: Seq<PeerView>)
    requires
        v.sound(),
        peers.len() == v.peers.len(),
        forall|i: int|
            0 <= i < peers.len() ==> {
                let p = #[trigger] peers[i];
                &&& p.handle == v.peers[i].handle
                &&& p.endpoint.wf()
                &&& p.endpoint.input_size == v.peers[i].endpoint.input_size
            },
    ensures
        (SessionView { peers, ..v }).sound(),
{
    lemma_spectators_same_handles(v.peers, peers);
    assert forall|i: int| 0 <= i < peers.len() implies {
        let p = #[trigger] peers[i];
        &&& p.endpoint.wf()
        &&& p.endpoint.input_size == v.sync.input_size
        &&& p.is_player() ==> p.handle.0 < v.sync.queues.len() && v.sync.slots[p.handle.0 as int].remote
    } by {
        assert(v.peers[i].endpoint.input_size == v.sync.input_size);
    }
}

/// A session stays well-formed when its manager changes but keeps its
/// players, which of them are remote, and the length of its inputs.
pub proof fn lemma_sync_changed(v: SessionView, sync: SyncView)
    requires
        v.sound(),
        sync.wf(),
        sync.queues.len() == v.sync.queues.len(),
        sync.input_size == v.sync.input_size,
        forall|p: int| 0 <= p < sync.slots.len() ==> (#[trigger] sync.slots[p]).remote == v.sync.slots[p].remote,
    ensures
        (SessionView { sync, ..v }).sound(),
{
    assert forall|i: int| 0 <= i < v.peers.len() implies {
        let p = #[trigger] v.peers[i];
        &&& p.endpoint.wf()
        &&& p.endpoint.input_size == sync.input_size
        &&& p.is_player() ==> p.handle.0 < sync.queues.len() && sync.slots[p.handle.0 as int].remote
    } by {}
}

/// Taking a connection's reports leaves the manager well-formed, with its
/// players, which of them are remote, the length of its inputs, its frame
/// and its checkpoints as they were; and no confirmed watermark goes down.
pub proof fn lemma_absorbed(sync: SyncView, handle: PlayerHandle, e: ProtoEventView)
    requires
        sync.wf(),
    ensures
        ({
            let next = absorbed(sync, handle, e);
            &&& next.wf()
            &&& next.queues.len() == sync.queues.len()
            &&& next.input_size == sync.input_size
            &&& next.current_frame == sync.current_frame
            &&& next.checkpoints == sync.checkpoints
            &&& next.in_rollback == sync.in_rollback
            &&& forall|p: int|
                0 <= p < sync.slots.len() ==> (#[trigger] next.slots[p]).remote
                    == sync.slots[p].remote
            &&& forall|p: int|
                0 <= p < sync.queues.len() ==> (#[trigger] next.queues[p]).last_confirmed()
                    >= sync.queues[p].last_confirmed()
        }),
{
    let next = absorbed(sync, handle, e);
    if handle.0 < SPECTATOR_BASE {
        match e {
            ProtoEventView::Input { frame, bits } => {
                let p = handle.0 as int;
                if sync.takes_remote_input(p, frame as int, bits) {
                    assert(sync.queues[p].wf());
                    assert forall|k: int| 0 <= k < next.queues.len() implies (
                    #[trigger] next.queues[k]).wf() && next.queues[k].input_size
                        == next.input_size by {
                        if k != p {
                            assert(next.queues[k] == sync.queues[k]);
                        }
                    }
                }
            },
            _ => {},
        }
    }
}

fn cap_u64(x: u64) -> (y: i32)
    ensures
        y == capped_i32(x as int),
{
    if x > i32::MAX as u64 {
        i32::MAX
    } else {
        x as i32
    }
}

fn cap_u32(x: u32) -> (y: i32)
    ensures
        y == capped_i32(x as int),
{
    if x > i32::MAX as u32 {
        i32::MAX
    } else {
        x as i32
    }
}

/// What the game is told when the connection to the participant that
/// `handle` names reports `event`.
pub fn translate(handle: PlayerHandle, event: &ProtoEvent) -> (out: Option<Event>)
    ensures
        out == told(handle, event@),
{
    match event {
        ProtoEvent::Connected => Some(Event::ConnectedToPeer { player: handle }),
        ProtoEvent::Synchronizing { count, total } => Some(
            Event::SynchronizingWithPeer { count: cap_u32(*count), total: cap_u32(*total) },
        ),
        ProtoEvent::Synchronized => Some(Event::SynchronizedWithPeer { player: handle }),
        ProtoEvent::Input { .. } => None,
        ProtoEvent::Disconnected => Some(Event::DisconnectedFromPeer { player: handle }),
        ProtoEvent::NetworkInterrupted { disconnect_timeout } => Some(
            Event::ConnectionInterrupted {
                player: handle,
                disconnect_timeout: cap_u64(*disconnect_timeout),
            },
        ),
        ProtoEvent::NetworkResumed => Some(Event::ConnectionResumed { player: handle }),
    }
}

/// Lays out the messages that wait for the peer at `address` and adds the
/// datagrams to `out`.
pub fn frame_outbox(address: PeerAddress, msgs: &Vec<UdpMsg>, out: &mut Vec<Datagram>)
    ensures
        datagram_views(final(out)@) == datagram_views(old(out)@)
            + crate::network::udp_proto::msg_views(msgs@).map_values(
            |m: UdpMsgView| DatagramView { address, payload: spec_encode(m) },
        ),
{
    let ghost goal = crate::network::udp_proto::msg_views(msgs@).map_values(
        |m: UdpMsgView| DatagramView { address, payload: spec_encode(m) },
    );
    let mut k: usize = 0;
    while k < msgs.len()
        invariant
            k <= msgs.len(),
            goal == crate::network::udp_proto::msg_views(msgs@).map_values(
                |m: UdpMsgView| DatagramView { address, payload: spec_encode(m) },
            ),
            datagram_views(out@) == datagram_views(old(out)@) + goal.subrange(0, k as int),
        decreases msgs.len() - k,
    {
        let payload = encode(&msgs[k]);
        let ghost before = out@;
        out.push(Datagram { address, payload });
        proof {
            assert(datagram_views(out@) =~= datagram_views(before).push(
                DatagramView { address, payload: payload@ },
            ));
            assert(goal.subrange(0, k + 1) =~= goal.subrange(0, k as int).push(goal[k as int]));
            assert(datagram_views(out@) =~= datagram_views(old(out)@) + goal.subrange(0, k + 1));
        }
        k += 1;
    }
    assert(goal.subrange(0, msgs.len() as int) =~= goal);
}

impl<C: GGPOSessionCallbacks> P2PSession<C> {
    fn deliver(&mut self, d: &Datagram, now: u64)
        requires
            old(self)@.sound(),
        ensures
            final(self)@.sound(),
            final(self).game() == old(self).game(),
            final(self)@ == (SessionView { peers: deliver(old(self)@.peers, d@, now), ..old(self)@ }),
    {
        let msg = match decode(d.payload.as_slice()) {
            Some(msg) => msg,
            None => {
                return ;
            },
        };
        match self.find_address(d.address) {
            None => {},
            Some(i) => {
                let ghost before = self.peers@;
                assert(self@.peers[i as int] == self.peers@[i as int]@);
                self.peers[i].endpoint.on_message(msg, now);
                proof {
                    lemma_peer_views_update(before, i as int, self.peers@[i as int]);
                    assert(self.peers@ =~= before.update(i as int, self.peers@[i as int]));
                    crate::network::udp_proto::lemma_input_size_kept(
                        old(self)@.peers[i as int].endpoint,
                        msg@,
                        0,
                        now,
                        0,
                    );
                    lemma_peers_changed(old(self)@, self@.peers);
                }
            },
        }
    }

    fn tick(&mut self, now: u64, nonce: u32)
        requires
            old(self)@.sound(),
        ensures
            final(self)@.sound(),
            final(self).game() == old(self).game(),
            final(self)@ == (SessionView {
                peers: ticked(
                    old(self)@.peers,
                    old(self)@.sync.current_frame as Frame,
                    now,
                    nonce,
                ),
                ..old(self)@
            }),
    {
        let frame = self.sync.current_frame();
        let ghost goal = ticked(old(self)@.peers, frame, now, nonce);
        let mut i: usize = 0;
        while i < self.peers.len()
            invariant
                i <= self.peers.len(),
                self@.sound(),
                self.game() == old(self).game(),
                frame == old(self)@.sync.current_frame,
                goal == ticked(old(self)@.peers, frame, now, nonce),
                self.peers@.len() == old(self)@.peers.len(),
                self@ == (SessionView { peers: self@.peers, ..old(self)@ }),
                forall|k: int| 0 <= k < i ==> #[trigger] self@.peers[k] == goal[k],
                forall|k: int|
                    i <= k < self.peers.len() ==> #[trigger] self@.peers[k] == old(self)@.peers[k],
            decreases self.peers.len() - i,
        {
            let ghost before = self.peers@;
            let ghost was = self@;
            assert(self@.peers[i as int] == self.peers@[i as int]@);
            proof {
                crate::network::udp_proto::lemma_input_size_kept(
                    was.peers[i as int].endpoint,
                    UdpMsgView::KeepAlive { sequence: 0 },
                    frame,
                    now,
                    nonce,
                );
                crate::network::udp_proto::lemma_input_size_kept(
                    was.peers[i as int].endpoint.note_local_frame(frame),
                    UdpMsgView::KeepAlive { sequence: 0 },
                    frame,
                    now,
                    nonce,
                );
            }
            self.peers[i].endpoint.note_local_frame(frame);
            self.peers[i].endpoint.poll(now, nonce);
            proof {
                lemma_peer_views_update(before, i as int, self.peers@[i as int]);
                assert(self.peers@ =~= before.update(i as int, self.peers@[i as int]));
                lemma_peers_changed(was, self@.peers);
            }
            i += 1;
        }
        proof {
            assert(self@.peers =~= goal);
        }
    }

    fn absorb(&mut self, handle: PlayerHandle, events: &Vec<ProtoEvent>, heard: &mut Vec<Event>)
        requires
            old(self)@.sound(),
        ensures
            final(self)@.sound(),
            final(self)@ == (SessionView {
                sync: absorbed_all(
                    old(self)@.sync,
                    handle,
                    crate::network::udp_proto::event_views(events@),
                ),
                ..old(self)@
            }),
            final(heard)@ == old(heard)@ + told_all(
                handle,
                crate::network::udp_proto::event_views(events@),
            ),
            told_all(handle, crate::network::udp_proto::event_views(events@)).len() == 0
                ==> final(self).game() == old(self).game(),
    {
        let ghost all = crate::network::udp_proto::event_views(events@);
        let mut k: usize = 0;
        assert(heard@ =~= old(heard)@ + told_all(handle, all.subrange(0, 0)));
        while k < events.len()
            invariant
                k <= events.len(),
                self@.sound(),
                all == crate::network::udp_proto::event_views(events@),
                self@ == (SessionView {
                    sync: absorbed_all(old(self)@.sync, handle, all.subrange(0, k as int)),
                    ..old(self)@
                }),
                heard@ == old(heard)@ + told_all(handle, all.subrange(0, k as int)),
                heard@.len() == old(heard)@.len() ==> self.game() == old(self).game(),
            decreases events.len() - k,
        {
            let ghost was = self@;
            proof {
                assert(all.subrange(0, k + 1).drop_last() =~= all.subrange(0, k as int));
                assert(all.subrange(0, k + 1).last() == events@[k as int]@);
                lemma_absorbed(was.sync, handle, events@[k as int]@);
            }
            if handle.0 < SPECTATOR_BASE {
                match &events[k] {
                    ProtoEvent::Input { frame, bits } => {
                        let taken = self.sync.add_remote_input(handle.0, *frame, bits);
                    },
                    ProtoEvent::Disconnected => {
                        let done = self.sync.disconnect_player(handle.0);
                    },
                    _ => {},
                }
            }
            proof {
                assert(self@.sync == absorbed(was.sync, handle, events@[k as int]@));
                lemma_sync_changed(was, self@.sync);
            }
            match translate(handle, &events[k]) {
                Some(event) => {
                    self.callbacks.on_event(&event);
                    heard.push(event);
                },
                None => {},
            }
            proof {
                assert(heard@ =~= old(heard)@ + told_all(handle, all.subrange(0, k + 1)));
            }
            k += 1;
        }
        assert(all.subrange(0, events.len() as int) =~= all);
    }

    fn drain(&mut self, heard: &mut Vec<Event>, out: &mut Vec<Datagram>)
        requires
            old(self)@.sound(),
        ensures
            final(self)@.sound(),
            final(self)@ == (SessionView {
                sync: absorbed_peers(old(self)@.sync, old(self)@.peers),
                peers: drained(old(self)@.peers),
                ..old(self)@
            }),
            final(heard)@ == old(heard)@ + told_peers(old(self)@.peers),
            datagram_views(final(out)@) == datagram_views(old(out)@) + outgoing(old(self)@.peers),
            told_peers(old(self)@.peers).len() == 0 ==> final(self).game() == old(self).game(),
    {
        let ghost start = old(self)@.peers;
        let ghost goal = drained(start);
        let mut i: usize = 0;
        proof {
            assert(heard@ =~= old(heard)@ + told_peers(start.subrange(0, 0)));
            assert(datagram_views(out@) =~= datagram_views(old(out)@) + outgoing(
                start.subrange(0, 0),
            ));
        }
        while i < self.peers.len()
            invariant
                i <= self.peers.len(),
                self@.sound(),
                start == old(self)@.peers,
                goal == drained(start),
                self.peers@.len() == start.len(),
                self@ == (SessionView {
                    sync: absorbed_peers(old(self)@.sync, start.subrange(0, i as int)),
                    peers: self@.peers,
                    ..old(self)@
                }),
                forall|k: int| 0 <= k < i ==> #[trigger] self@.peers[k] == goal[k],
                forall|k: int| i <= k < self.peers.len() ==> #[trigger] self@.peers[k] == start[k],
                heard@ == old(heard)@ + told_peers(start.subrange(0, i as int)),
                heard@.len() == old(heard)@.len() ==> self.game() == old(self).game(),
                datagram_views(out@) == datagram_views(old(out)@) + outgoing(
                    start.subrange(0, i as int),
                ),
            decreases self.peers.len() - i,
        {
            let ghost before = self.peers@;
            let ghost was = self@;
            proof {
                assert(self@.peers[i as int] == self.peers@[i as int]@);
                assert(start.subrange(0, i + 1).drop_last() =~= start.subrange(0, i as int));
                assert(start.subrange(0, i + 1).last() == start[i as int]);
            }
            let handle = self.peers[i].handle;
            let address = self.peers[i].address;
            let events = self.peers[i].endpoint.take_events();
            let msgs = self.peers[i].endpoint.take_outbox();
            proof {
                lemma_peer_views_update(before, i as int, self.peers@[i as int]);
                assert(self.peers@ =~= before.update(i as int, self.peers@[i as int]));
                lemma_peers_changed(was, self@.peers);
            }
            self.absorb(handle, &events, heard);
            frame_outbox(address, &msgs, out);
            proof {
                assert(heard@ =~= old(heard)@ + told_peers(start.subrange(0, i + 1)));
                assert(datagram_views(out@) =~= datagram_views(old(out)@) + outgoing(
                    start.subrange(0, i + 1),
                ));
            }
            i += 1;
        }
        proof {
            assert(start.subrange(0, start.len() as int) =~= start);
            assert(self@.peers =~= goal);
        }
    }

    fn report_skew(&mut self)
        requires
            old(self)@.sound(),
        ensures
            final(self)@.sound(),
            final(self).game() == old(self).game(),
            final(self)@ == (SessionView {
                time_sync: reported(old(self)@.time_sync, old(self)@.peers),
                ..old(self)@
            }),
    {
        let mut i: usize = 0;
        while i < self.peers.len()
            invariant
                i <= self.peers.len(),
                self@.sound(),
                self.game() == old(self).game(),
                self@ == (SessionView {
                    time_sync: reported(
                        old(self)@.time_sync,
                        old(self)@.peers.subrange(0, i as int),
                    ),
                    ..old(self)@
                }),
            decreases self.peers.len() - i,
        {
            proof {
                let all = old(self)@.peers;
                assert(all[i as int] == self.peers@[i as int]@);
                assert(all.subrange(0, i + 1).drop_last() =~= all.subrange(0, i as int));
                assert(all.subrange(0, i + 1).last() == all[i as int]);
            }
            if self.peers[i].handle.0 < SPECTATOR_BASE && self.peers[i].endpoint.is_synchronized() {
                let local = self.peers[i].endpoint.local_frames_behind();
                let remote = self.peers[i].endpoint.remote_frames_behind();
                self.time_sync.report(local, remote);
            }
            i += 1;
        }
        assert(old(self)@.peers.subrange(0, self.peers.len() as int) =~= old(self)@.peers);
    }
}

/// Taking the reports of connections leaves the manager well-formed, with
/// its players, which of them are remote, the length of its inputs, its
/// frame and its checkpoints as they were; and no confirmed watermark goes
/// down.
pub proof fn lemma_absorbed_all(sync: SyncView, handle: PlayerHandle, events: Seq<ProtoEventView>)
    requires
        sync.wf(),
    ensures
        ({
            let next = absorbed_all(sync, handle, events);
            &&& next.wf()
            &&& next.queues.len() == sync.queues.len()
            &&& next.input_size == sync.input_size
            &&& next.current_frame == sync.current_frame
            &&& next.checkpoints == sync.checkpoints
            &&& next.in_rollback == sync.in_rollback
            &&& forall|p: int|
                0 <= p < sync.slots.len() ==> (#[trigger] next.slots[p]).remote
                    == sync.slots[p].remote
            &&& forall|p: int|
                0 <= p < sync.queues.len() ==> (#[trigger] next.queues[p]).last_confirmed()
                    >= sync.queues[p].last_confirmed()
        }),
    decreases events.len(),
{
    if events.len() > 0 {
        lemma_absorbed_all(sync, handle, events.drop_last());
        lemma_absorbed(absorbed_all(sync, handle, events.drop_last()), handle, events.last());
    }
}

/// The same, for the reports of all peers.
pub proof fn lemma_absorbed_peers(sync: SyncView, peers: Seq<PeerView>)
    requires
        sync.wf(),
    ensures
        ({
            let next = absorbed_peers(sync, peers);
            &&& next.wf()
            &&& next.queues.len() == sync.queues.len()
            &&& next.input_size == sync.input_size
            &&& next.current_frame == sync.current_frame
            &&& next.checkpoints == sync.checkpoints
            &&& next.in_rollback == sync.in_rollback
            &&& forall|p: int|
                0 <= p < sync.slots.len() ==> (#[trigger] next.slots[p]).remote
                    == sync.slots[p].remote
            &&& forall|p: int|
                0 <= p < sync.queues.len() ==> (#[trigger] next.queues[p]).last_confirmed()
                    >= sync.queues[p].last_confirmed()
        }),
    decreases peers.len(),
{
    if peers.len() > 0 {
        lemma_absorbed_peers(sync, peers.drop_last());
        lemma_absorbed_all(
            absorbed_peers(sync, peers.drop_last()),
            peers.last().handle,
            peers.last().endpoint.events,
        );
    }
}

/// The connection `e` with one of its two timeouts set to `value`: the time
/// after which the peer is reported as interrupted if `notify`, else the time
/// after which it is given up.
pub open spec fn with_timeout(e: EndpointView, value: u64, notify: bool) -> EndpointView {
    if notify {
        EndpointView { disconnect_notify_start: value, ..e }
    } else {
        EndpointView { disconnect_timeout: value, ..e }
    }
}

impl<C: GGPOSessionCallbacks> P2PSession<C> {
    fn set_timeout(&mut self, value: u64, notify: bool)
        requires
            old(self)@.sound(),
        ensures
            final(self)@.sound(),
            final(self).game() == old(self).game(),
            final(self)@ == (SessionView {
                disconnect_timeout: if notify {
                    old(self)@.disconnect_timeout
                } else {
                    value
                },
                disconnect_notify_start: if notify {
                    value
                } else {
                    old(self)@.disconnect_notify_start
                },
                ..old(self)@.with_endpoints(|e: EndpointView| with_timeout(e, value, notify))
            }),
    {
        if notify {
            self.disconnect_notify_start = value;
        } else {
            self.disconnect_timeout = value;
        }
        let ghost goal = old(self)@.with_endpoints(
            |e: EndpointView| with_timeout(e, value, notify),
        ).peers;
        let ghost settings = self@;
        let mut i: usize = 0;
        while i < self.peers.len()
            invariant
                i <= self.peers.len(),
                self@.sound(),
                self.game() == old(self).game(),
                goal == old(self)@.with_endpoints(
                    |e: EndpointView| with_timeout(e, value, notify),
                ).peers,
                self.peers@.len() == old(self)@.peers.len(),
                self@ == (SessionView { peers: self@.peers, ..settings }),
                settings.peers == old(self)@.peers,
                forall|k: int| 0 <= k < i ==> #[trigger] self@.peers[k] == goal[k],
                forall|k: int|
                    i <= k < self.peers.len() ==> #[trigger] self@.peers[k] == old(self)@.peers[k],
            decreases self.peers.len() - i,
        {
            let ghost before = self.peers@;
            let ghost was = self@;
            assert(self@.peers[i as int] == self.peers@[i as int]@);
            if notify {
                self.peers[i].endpoint.set_disconnect_notify_start(value);
            } else {
                self.peers[i].endpoint.set_disconnect_timeout(value);
            }
            proof {
                lemma_peer_views_update(before, i as int, self.peers@[i as int]);
                assert(self.peers@ =~= before.update(i as int, self.peers@[i as int]));
                lemma_peers_changed(was, self@.peers);
            }
            i += 1;
        }
        proof {
            assert(self@.peers =~= goal);
        }
    }
}

fn widen(x: usize) -> (y: u64)
    ensures
        y == x,
{
    x as u64
}

impl<C: GGPOSessionCallbacks> Session for P2PSession<C> {
    open spec fn wf(&self) -> bool {
        self@.wf()
    }

    open spec fn confirmed_frame(&self, player: int) -> int {
        self@.confirmed_frame(player)
    }

    /// Runs one tick. In turn: every datagram of `incoming` is handed to the
    /// connection of the peer it came from; every connection is driven at
    /// `now`; what the connections report is taken (inputs are confirmed,
    /// peers that were given up take part no more) and the game is told;
    /// the simulation is replayed if a guess has proved wrong; the skew is
    /// measured; and what the connections have queued is laid out as
    /// datagrams.
    ///
    /// The tick succeeds when no guess has proved wrong. Where one has, it
    /// succeeds if the replay does. It fails with `InRollback` when an
    /// earlier replay was given up, and with `GeneralFailure` when no
    /// checkpoint reaches back to the frame to correct or the game fails in
    /// the replay; the manager is then left in rollback. Whatever the
    /// outcome, what arrived was taken: the connections were driven and the
    /// confirmed inputs are those that they reported. A tick in which the
    /// game is told of nothing and no guess has proved wrong does not call
    /// the game: nothing is loaded and nothing is simulated again.
    fn do_poll(&mut self, now: u64, incoming: Vec<Datagram>, nonce: u32) -> (done: Result<
        PollOutput,
        GGPOError,
    >)
        ensures
            ({
                let before = old(self)@;
                let arrived = deliver_all(before.peers, datagram_views(incoming@), now);
                let peers = ticked(arrived, before.sync.current_frame as Frame, now, nonce);
                let sync = absorbed_peers(before.sync, peers);
                let skew = reported(before.time_sync, peers);
                let frame = before.sync.current_frame as Frame;
                &&& final(self)@.clock == now
                &&& final(self)@.peers == drained(peers)
                &&& final(self)@.running_announced == (before.running_announced
                    || before.announces(peers))
                &&& final(self)@.max_players == before.max_players
                &&& final(self)@.sync_round_trips == before.sync_round_trips
                &&& final(self)@.disconnect_timeout == before.disconnect_timeout
                &&& final(self)@.disconnect_notify_start == before.disconnect_notify_start
                &&& final(self)@.sync.current_frame == before.sync.current_frame || final(self)@.sync.in_rollback
                &&& !before.sync.in_rollback && sync.first_incorrect() == NULL_FRAME
                    ==> done.is_ok()
                &&& before.sync.in_rollback ==> done.is_err() && done.err().unwrap()
                    == GGPOError::InRollback
                &&& !before.sync.in_rollback && sync.first_incorrect() != NULL_FRAME
                    && sync.rollback_checkpoint() < 0 ==> done.is_err() && done.err().unwrap()
                    == GGPOError::GeneralFailure
                &&& final(self)@.sync.queues.len() == sync.queues.len()
                &&& forall|p: int|
                    0 <= p < sync.queues.len() ==> (#[trigger] final(self)@.sync.queues[p]).confirmed
                        == sync.queues[p].confirmed
                &&& match done {
                    Ok(out) => {
                        &&& datagram_views(out.datagrams@) == outgoing(peers)
                        &&& out.events@ == told_peers(peers) + (if before.announces(peers) {
                            seq![Event::Running {  }]
                        } else {
                            Seq::<Event>::empty()
                        }) + (match skew.recommendation(frame) {
                            Some(frames_ahead) => seq![Event::Timesync { frames_ahead }],
                            None => Seq::<Event>::empty(),
                        })
                        &&& final(self)@.time_sync == skew.end_tick(frame)
                        &&& out.events@.len() == 0 && sync.first_incorrect() == NULL_FRAME
                            ==> final(self).game() == old(self).game()
                        &&& !final(self)@.sync.in_rollback
                        &&& sync.first_incorrect() == NULL_FRAME ==> final(self)@.sync == sync
                        &&& sync.first_incorrect() != NULL_FRAME ==> {
                            let i = sync.rollback_checkpoint();
                            &&& 0 <= i < sync.checkpoints.len()
                            &&& final(self)@.sync == (SyncView {
                                queues: sync.replayed_queues(i),
                                checkpoints: final(self)@.sync.checkpoints,
                                ..sync
                            })
                        }
                    },
                    Err(e) => {
                        &&& e == GGPOError::GeneralFailure || e == GGPOError::InRollback
                        &&& final(self)@.sync.in_rollback
                        &&& final(self)@.time_sync == skew
                    },
                }
            }),
    {
        self.clock = now;
        let mut k: usize = 0;
        while k < incoming.len()
            invariant
                k <= incoming.len(),
                self@.sound(),
                self.game() == old(self).game(),
                self@ == (SessionView {
                    clock: now,
                    peers: deliver_all(
                        old(self)@.peers,
                        datagram_views(incoming@).subrange(0, k as int),
                        now,
                    ),
                    ..old(self)@
                }),
            decreases incoming.len() - k,
        {
            proof {
                let all = datagram_views(incoming@);
                assert(all.subrange(0, k + 1).drop_last() =~= all.subrange(0, k as int));
                assert(all.subrange(0, k + 1).last() == incoming@[k as int]@);
            }
            self.deliver(&incoming[k], now);
            k += 1;
        }
        proof {
            let all = datagram_views(incoming@);
            assert(all.subrange(0, all.len() as int) =~= all);
        }
        self.tick(now, nonce);
        self.report_skew();
        let ghost peers = self@.peers;
        let mut events: Vec<Event> = Vec::new();
        let mut datagrams: Vec<Datagram> = Vec::new();
        let announce = !self.running_announced && !self.is_not_synchronized();
        self.drain(&mut events, &mut datagrams);
        proof {
            lemma_absorbed_peers(old(self)@.sync, peers);
            assert(events@ =~= told_peers(peers));
            assert(datagram_views(datagrams@) =~= outgoing(peers));
        }
        if announce {
            self.running_announced = true;
            let event = Event::Running {  };
            self.callbacks.on_event(&event);
            events.push(event);
        }
        let ghost mid = self@;
        let frame = self.sync.current_frame();
        match self.sync.rollback(&mut self.callbacks) {
            Err(e) => {
                proof {
                    lemma_sync_changed(mid, self@.sync);
                    lemma_tick_settles(
                        old(self)@,
                        datagram_views(incoming@),
                        now,
                        nonce,
                        self@,
                    );
                }
                return Err(e);
            },
            Ok(_) => {},
        }
        proof {
            lemma_sync_changed(mid, self@.sync);
        }
        match self.time_sync.end_tick(frame) {
            Some(frames_ahead) => {
                let event = Event::Timesync { frames_ahead };
                self.callbacks.on_event(&event);
                events.push(event);
            },
            None => {},
        }
        proof {
            lemma_tick_settles(old(self)@, datagram_views(incoming@), now, nonce, self@);
        }
        Ok(PollOutput { datagrams, events })
    }

    /// Adds a participant and returns the handle that names it. A player,
    /// local or remote, gets the next player number as its handle; a
    /// spectator gets the next handle from `SPECTATOR_BASE` on.
    ///
    /// Refused: anyone once the game has begun, and a remote participant at
    /// an address that is taken (`InvalidRequest`); a player when the session
    /// is full (`PlayerOutOfRange`); a spectator when `MAX_SPECTATORS` watch
    /// (`TooManySpectators`).
    fn add_player(&mut self, player: Player) -> (added: Result<PlayerHandle, GGPOError>)
        ensures
            added == old(self)@.add_player_result(player),
            final(self)@ == old(self)@.after_add_player(player),
            final(self).game() == old(self).game(),
    {
        if self.sync.current_frame() > 0 || self.sync.num_checkpoints() > 0 {
            return Err(GGPOError::InvalidRequest);
        }
        let address = match player {
            Player::Local => {
                if self.sync.num_players() >= self.max_players {
                    return Err(GGPOError::PlayerOutOfRange);
                }
                let p = match self.sync.add_player(false) {
                    Ok(p) => p,
                    Err(e) => {
                        return Err(e);
                    },
                };
                proof {
                    lemma_sync_changed_by_player(old(self)@, self@.sync);
                    lemma_joined(old(self)@, player);
                }
                return Ok(PlayerHandle(p));
            },
            Player::Remote(address) => address,
            Player::Spectator(address) => address,
        };
        if self.find_address(address).is_some() {
            return Err(GGPOError::InvalidRequest);
        }
        let endpoint = match Endpoint::new(
            self.sync.input_size(),
            self.sync_round_trips,
            self.disconnect_timeout,
            self.disconnect_notify_start,
        ) {
            Ok(endpoint) => endpoint,
            Err(e) => {
                return Err(e);
            },
        };
        let handle = match player {
            Player::Spectator(_) => {
                let watching = self.count_spectators();
                if watching >= MAX_SPECTATORS {
                    return Err(GGPOError::TooManySpectators);
                }
                PlayerHandle(SPECTATOR_BASE + watching)
            },
            _ => {
                if self.sync.num_players() >= self.max_players {
                    return Err(GGPOError::PlayerOutOfRange);
                }
                match self.sync.add_player(true) {
                    Ok(p) => PlayerHandle(p),
                    Err(e) => {
                        return Err(e);
                    },
                }
            },
        };
        let peer = Peer { handle, address, endpoint };
        proof {
            lemma_peer_views_push(self.peers@, peer);
            if !(player is Spectator) {
                lemma_sync_changed_by_player(old(self)@, self@.sync);
            }
            lemma_peer_joined(self@, peer@);
            lemma_joined(old(self)@, player);
        }
        self.peers.push(peer);
        Ok(handle)
    }

    /// Takes the input of a local player for the frame that lies the
    /// player's input delay after the current one, and passes it on to every
    /// peer that plays.
    ///
    /// The request is judged first. Refused, with nothing changed:
    /// everything while the handshake with a peer that plays is not done
    /// (`NotSynchronized`); a handle that names no player, or a remote one
    /// (`InvalidPlayerHandle`); everything while a replay is due or under way
    /// (`InRollback`); bits of the wrong length (`InvalidRequest`); an input
    /// while the simulation is further ahead of the slowest remote player
    /// than the prediction window allows (`PredictionThreshold`); an input
    /// for a frame that holds one already (`InputDropped`).
    ///
    /// Before the first input is taken, and only then, the game is asked to
    /// save the state in which the first frame starts. If it does not, the
    /// input is not taken, nothing changes and the answer is
    /// `GeneralFailure`.
    fn add_local_input(&mut self, player: PlayerHandle, values: &Vec<u8>) -> (done: Result<
        (),
        GGPOError,
    >)
        ensures
            ({
                let before = old(self)@;
                let judged = before.local_input_result(player, values@);
                let goal = before.after_local_input(player, values@);
                &&& judged.is_err() ==> done == judged
                &&& judged.is_ok() ==> done.is_ok() || (done == Err::<(), GGPOError>(
                    GGPOError::GeneralFailure,
                ) && before.sync.checkpoints.len() == 0)
                &&& before.sync.checkpoints.len() > 0 ==> done == judged
                &&& done == Err::<(), GGPOError>(GGPOError::PredictionThreshold) <==> judged
                    == Err::<(), GGPOError>(GGPOError::PredictionThreshold)
                &&& done.is_err() ==> final(self)@ == before
                &&& done.is_ok() ==> {
                    &&& final(self)@ == (SessionView {
                        sync: SyncView {
                            checkpoints: final(self)@.sync.checkpoints,
                            ..goal.sync
                        },
                        ..goal
                    })
                    &&& final(self)@.sync.checkpoints == before.sync.checkpoints || (
                    before.sync.checkpoints.len() == 0 && exists|state: SavedState|
                        state.frame == before.sync.current_frame && final(self)@.sync.checkpoints
                            == #[trigger] before.sync.checkpoints_with(state))
                }
                &&& judged.is_err() || before.sync.checkpoints.len() > 0 ==> final(self).game()
                    == old(self).game()
            }),
    {
        if self.is_not_synchronized() {
            return Err(GGPOError::NotSynchronized);
        }
        let p = player.0;
        if p >= self.sync.num_players() {
            return Err(GGPOError::InvalidPlayerHandle);
        }
        match self.sync.judge_local_input(p, values) {
            Err(e) => {
                return Err(e);
            },
            Ok(_) => {},
        }
        if self.sync.num_checkpoints() == 0 {
            if !self.sync.save_current_frame(&mut self.callbacks) {
                return Err(GGPOError::GeneralFailure);
            }
            proof {
                lemma_sync_changed(old(self)@, self@.sync);
            }
        }
        let ghost saved = self@;
        proof {
            crate::sync::lemma_checkpoints_apart(
                old(self)@.sync,
                saved.sync.checkpoints,
                p as int,
                values@,
            );
            assert(saved.sync == (SyncView {
                checkpoints: saved.sync.checkpoints,
                ..old(self)@.sync
            }));
        }
        let known = self.sync.last_confirmed_frame(p);
        match self.sync.add_local_input(p, values) {
            Err(e) => Err(e),
            Ok(target) => {
                proof {
                    crate::sync::lemma_confirmed_never_decreases(
                        saved.sync,
                        p as int,
                        0,
                        values@,
                        0,
                        p as int,
                    );
                    lemma_sync_changed_by_input(saved, p as int, values@);
                }
                let last = self.sync.last_confirmed_frame(p);
                let fresh = self.fresh_local_inputs(p, known + 1, last);
                proof {
                    assert(crate::network::udp_proto::input_views(fresh@)
                        =~= SessionView::fresh_inputs(
                        old(self)@.sync.queues[p as int],
                        self@.sync.queues[p as int],
                    ));
                }
                self.broadcast(&fresh);
                proof {
                    let was = old(self)@;
                    let now = self@;
                    let inputs = crate::network::udp_proto::input_views(fresh@);
                    assert forall|k: int| 0 <= k < was.peers.len() implies {
                        let q = #[trigger] now.peers[k];
                        &&& q.handle == was.peers[k].handle
                        &&& q.address == was.peers[k].address
                        &&& q.endpoint.state == was.peers[k].endpoint.state
                        &&& q.endpoint.disconnect_timeout == was.peers[k].endpoint.disconnect_timeout
                        &&& q.endpoint.disconnect_notify_start
                            == was.peers[k].endpoint.disconnect_notify_start
                    } by {
                        crate::network::udp_proto::lemma_send_all(
                            was.peers[k].endpoint,
                            inputs,
                            was.clock,
                        );
                        assert(was.peers[k].endpoint.wf());
                        crate::network::udp_proto::lemma_send_all_steps(
                            was.peers[k].endpoint,
                            inputs,
                            was.clock,
                        );
                    }
                    assert(now.flags_agree()) by {
                        assert forall|k: int|
                            0 <= k < now.peers.len() && (#[trigger] now.peers[k]).is_player() implies (
                        now.sync.slots[now.peers[k].handle.0 as int].connected
                            <==> now.peers[k].endpoint.state != ConnState::Disconnected) by {
                            assert(was.peers[k].is_player());
                        }
                    }
                    assert(now.inputs_agree()) by {
                        assert forall|k: int|
                            0 <= k < now.peers.len() && (#[trigger] now.peers[k]).is_player() implies {
                            &&& now.peers[k].endpoint.last_received_frame + 1
                                == now.sync.queues[now.peers[k].handle.0 as int].confirmed.len()
                            &&& inputs_told(now.peers[k].endpoint.events) == 0
                        } by {
                            assert(was.peers[k].is_player());
                            crate::network::udp_proto::lemma_send_all(
                                was.peers[k].endpoint,
                                inputs,
                                was.clock,
                            );
                            assert(was.sync.slots[was.peers[k].handle.0 as int].remote);
                            assert(was.peers[k].handle.0 != p);
                        }
                    }
                    lemma_wf_carries(was, now, true);
                }
                Ok(())
            },
        }
    }

    /// Hands out the inputs of all players for the current frame, with the
    /// disconnect flags: for each player the confirmed input where it is
    /// known, else the most recent known input repeated. Refused with
    /// `NotSynchronized` while the handshake with a peer that plays is not
    /// done.
    fn synchronize_input(&mut self) -> (handed: Result<(Vec<Vec<u8>>, i32), GGPOError>)
        ensures
            match handed {
                Ok(pair) => {
                    &&& !old(self)@.not_synchronized()
                    &&& crate::input_queue::rows(pair.0@) == old(self)@.sync.resolve_all(
                        old(self)@.sync.current_frame,
                    )
                    &&& pair.1 == old(self)@.sync.disconnect_flags()
                    &&& final(self)@ == (SessionView {
                        sync: old(self)@.sync.after_synchronize(),
                        ..old(self)@
                    })
                },
                Err(e) => {
                    &&& old(self)@.not_synchronized()
                    &&& e == GGPOError::NotSynchronized
                    &&& final(self)@ == old(self)@
                },
            },
            final(self).game() == old(self).game(),
    {
        if self.is_not_synchronized() {
            return Err(GGPOError::NotSynchronized);
        }
        let handed = self.sync.synchronize_input();
        proof {
            lemma_sync_changed(old(self)@, self@.sync);
            assert forall|p: int| self@.confirmed_frame(p) >= old(self)@.confirmed_frame(
                p,
            ) by {
                if 0 <= p < old(self)@.sync.queues.len() {
                    crate::sync::lemma_confirmed_never_decreases(
                        old(self)@.sync,
                        0,
                        0,
                        Seq::empty(),
                        0,
                        p,
                    );
                }
            }
        }
        Ok(handed)
    }

    /// Moves on to the next frame, once the game has simulated the current
    /// one, and has the game save the state in which the next frame starts.
    /// Fails with `GeneralFailure` at the last frame, where nothing changes,
    /// and when the game does not save, where the frame counter has moved.
    fn increment_frame(&mut self) -> (done: Result<(), GGPOError>)
        ensures
            old(self)@.sync.current_frame == i32::MAX ==> done.is_err() && final(self)@ == old(self)@,
            old(self)@.sync.current_frame < i32::MAX ==> final(self)@.sync.current_frame == old(self)@.sync.current_frame + 1,
            done.is_err() ==> done == Err::<(), GGPOError>(GGPOError::GeneralFailure),
            final(self)@ == (SessionView {
                sync: SyncView {
                    current_frame: final(self)@.sync.current_frame,
                    checkpoints: final(self)@.sync.checkpoints,
                    ..old(self)@.sync
                },
                ..old(self)@
            }),
            done.is_ok() ==> exists|state: SavedState|
                state.frame == final(self)@.sync.current_frame && final(self)@.sync.checkpoints
                    == #[trigger] old(self)@.sync.checkpoints_with(state),
            done.is_err() ==> final(self)@.sync.checkpoints == old(self)@.sync.checkpoints,
    {
        let done = self.sync.increment_frame(&mut self.callbacks);
        proof {
            lemma_sync_changed(old(self)@, self@.sync);
        }
        done
    }

    fn chat(&mut self, text: String) -> (done: Result<(), GGPOError>)
        ensures
            final(self)@ == old(self)@,
            final(self).game() == old(self).game(),
    {
        Ok(())
    }

    /// Sends a remote participant away: the connection is given up, and a
    /// player takes part no more.
    ///
    /// Refused: a handle that names a local player (`InvalidRequest`) or no
    /// one (`InvalidPlayerHandle`), and a participant that is gone already
    /// (`PlayerDisconnected`).
    fn disconnect_player(&mut self, handle: PlayerHandle) -> (done: Result<(), GGPOError>)
        ensures
            done == old(self)@.disconnect_result(handle),
            final(self)@ == old(self)@.after_disconnect(handle),
            final(self).game() == old(self).game(),
    {
        let i = match self.find_handle(handle) {
            Some(i) => i,
            None => {
                if handle.0 < self.sync.num_players() {
                    return Err(GGPOError::InvalidRequest);
                } else {
                    return Err(GGPOError::InvalidPlayerHandle);
                }
            },
        };
        proof {
            assert(self@.peers[i as int] == self.peers@[i as int]@);
            lemma_index_of_handle(self@.peers, handle);
        }
        if self.peers[i].endpoint.state() == ConnState::Disconnected {
            return Err(GGPOError::PlayerDisconnected);
        }
        let ghost before = self.peers@;
        self.peers[i].endpoint.disconnect();
        proof {
            lemma_peer_views_update(before, i as int, self.peers@[i as int]);
            assert(self.peers@ =~= before.update(i as int, self.peers@[i as int]));
            crate::network::udp_proto::lemma_input_size_kept(
                old(self)@.peers[i as int].endpoint,
                UdpMsgView::KeepAlive { sequence: 0 },
                0,
                0,
                0,
            );
            lemma_peers_changed(old(self)@, self@.peers);
        }
        if handle.0 < SPECTATOR_BASE {
            let ghost mid = self@;
            let gone = self.sync.disconnect_player(handle.0);
            proof {
                lemma_sync_changed(mid, self@.sync);
            }
        }
        proof {
            let was = old(self)@;
            let now = self@;
            crate::network::udp_proto::lemma_steps(
                was.peers[i as int].endpoint,
                arbitrary(),
                arbitrary(),
                0,
                0,
                0,
            );
            assert forall|k: int|
                0 <= k < now.peers.len() && (#[trigger] now.peers[k]).is_player() implies (
            now.sync.slots[now.peers[k].handle.0 as int].connected <==> now.peers[k].endpoint.state
                != ConnState::Disconnected) by {
                if k != i {
                    assert(now.peers[k] == was.peers[k]);
                    if k < i {
                        assert(was.peers[k].handle != was.peers[i as int].handle);
                    } else {
                        assert(was.peers[i as int].handle != was.peers[k].handle);
                    }
                    assert(was.peers[k].is_player());
                }
            }
            assert(now.inputs_agree()) by {
                assert forall|k: int|
                    0 <= k < now.peers.len() && (#[trigger] now.peers[k]).is_player() implies {
                    &&& now.peers[k].endpoint.last_received_frame + 1
                        == now.sync.queues[now.peers[k].handle.0 as int].confirmed.len()
                    &&& inputs_told(now.peers[k].endpoint.events) == 0
                } by {
                    assert(was.peers[k].is_player());
                    if k != i {
                        assert(now.peers[k] == was.peers[k]);
                    }
                }
            }
            lemma_wf_carries(was, now, true);
        }
        Ok(())
    }

    /// A snapshot of the link to a participant: what its connection has
    /// measured, and nothing but zeros for a local player. Refused with
    /// `InvalidPlayerHandle` for a handle that names no one.
    fn get_network_stats(&self, handle: PlayerHandle) -> (stats: Result<NetworkStats, GGPOError>)
        ensures
            stats == self@.network_stats(handle),
    {
        match self.find_handle(handle) {
            None => {
                if handle.0 < self.sync.num_players() {
                    Ok(NetworkStats::new())
                } else {
                    Err(GGPOError::InvalidPlayerHandle)
                }
            },
            Some(i) => {
                assert(self@.peers[i as int] == self.peers@[i as int]@);
                let network = self.peers[i].endpoint.stats(self.clock);
                let timesync = TimeSync {
                    local_frames_behind: self.peers[i].endpoint.local_frames_behind(),
                    remote_frames_behind: self.peers[i].endpoint.remote_frames_behind(),
                };
                Ok(NetworkStats { network, timesync })
            },
        }
    }

    fn logv(&mut self, fmt: &str) -> (done: Result<(), GGPOError>)
        ensures
            final(self)@ == old(self)@,
            final(self).game() == old(self).game(),
    {
        Ok(())
    }

    /// Puts off the input of a local player by `delay` frames from now on.
    /// Refused: a handle that names no local player (`InvalidPlayerHandle`),
    /// a negative delay (`InvalidRequest`).
    fn set_frame_delay(&mut self, player: PlayerHandle, delay: i32) -> (done: Result<
        (),
        GGPOError,
    >)
        ensures
            final(self).game() == old(self).game(),
            done == old(self)@.frame_delay_result(player, delay),
            final(self)@ == if done.is_ok() {
                SessionView {
                    sync: SyncView {
                        slots: old(self)@.sync.slots.update(
                            player.0 as int,
                            crate::sync::Slot {
                                frame_delay: delay,
                                ..old(self)@.sync.slots[player.0 as int]
                            },
                        ),
                        ..old(self)@.sync
                    },
                    ..old(self)@
                }
            } else {
                old(self)@
            },
    {
        if player.0 >= self.sync.num_players() {
            return Err(GGPOError::InvalidPlayerHandle);
        }
        let done = self.sync.set_frame_delay(player.0, delay);
        proof {
            lemma_sync_changed(old(self)@, self@.sync);
        }
        done
    }

    /// Sets after how many silent milliseconds a peer is given up, for the
    /// peers that have joined and for those that will. A peer is reported as
    /// interrupted before it is given up: a time below the one set by
    /// [`Session::set_disconnect_notify_start`] is refused with
    /// `InvalidRequest`, and nothing changes.
    fn set_disconnect_timeout(&mut self, timeout: usize) -> (done: Result<(), GGPOError>)
        ensures
            done == if timeout < old(self)@.disconnect_notify_start {
                Err::<(), GGPOError>(GGPOError::InvalidRequest)
            } else {
                Ok(())
            },
            final(self).game() == old(self).game(),
            final(self)@ == if done.is_ok() {
                SessionView {
                    disconnect_timeout: timeout as u64,
                    ..old(self)@.with_endpoints(
                        |e: EndpointView| with_timeout(e, timeout as u64, false),
                    )
                }
            } else {
                old(self)@
            },
    {
        let value = widen(timeout);
        if value < self.disconnect_notify_start {
            return Err(GGPOError::InvalidRequest);
        }
        self.set_timeout(value, false);
        proof {
            lemma_inputs_carry(old(self)@, self@);
            lemma_wf_carries(old(self)@, self@, false);
        }
        Ok(())
    }

    /// Sets after how many silent milliseconds a peer is reported as
    /// interrupted, for the peers that have joined and for those that will.
    /// A time above the one set by [`Session::set_disconnect_timeout`] is
    /// refused with `InvalidRequest`, and nothing changes.
    fn set_disconnect_notify_start(&mut self, timeout: usize) -> (done: Result<(), GGPOError>)
        ensures
            done == if timeout > old(self)@.disconnect_timeout {
                Err::<(), GGPOError>(GGPOError::InvalidRequest)
            } else {
                Ok(())
            },
            final(self).game() == old(self).game(),
            final(self)@ == if done.is_ok() {
                SessionView {
                    disconnect_notify_start: timeout as u64,
                    ..old(self)@.with_endpoints(
                        |e: EndpointView| with_timeout(e, timeout as u64, true),
                    )
                }
            } else {
                old(self)@
            },
    {
        let value = widen(timeout);
        if value > self.disconnect_timeout {
            return Err(GGPOError::InvalidRequest);
        }
        self.set_timeout(value, true);
        proof {
            lemma_inputs_carry(old(self)@, self@);
            lemma_wf_carries(old(self)@, self@, false);
        }
        Ok(())
    }
}

/// A session stays well-formed over a replay.
proof fn sync_kept_by_replay(v: SessionView, sync: SyncView)
    requires
        v.sound(),
        sync.wf(),
        sync.queues.len() == v.sync.queues.len(),
        sync == (SyncView {
            queues: sync.queues,
            current_frame: sync.current_frame,
            checkpoints: sync.checkpoints,
            in_rollback: sync.in_rollback,
            ..v.sync
        }),
    ensures
        (SessionView { sync, ..v }).sound(),
{
    lemma_sync_changed(v, sync);
}

/// A session stays well-formed when a player joins its manager.
proof fn lemma_sync_changed_by_player(v: SessionView, sync: SyncView)
    requires
        v.sound(),
        sync.wf(),
        sync.queues.len() == v.sync.queues.len() + 1,
        sync.queues.len() <= v.max_players,
        sync.input_size == v.sync.input_size,
        forall|p: int|
            0 <= p < v.sync.slots.len() ==> (#[trigger] sync.slots[p]).remote
                == v.sync.slots[p].remote,
    ensures
        (SessionView { sync, ..v }).sound(),
{
    assert forall|i: int| 0 <= i < v.peers.len() implies {
        let p = #[trigger] v.peers[i];
        &&& p.endpoint.wf()
        &&& p.endpoint.input_size == sync.input_size
        &&& p.is_player() ==> p.handle.0 < sync.queues.len() && sync.slots[p.handle.0 as int].remote
    } by {}
}

/// A session stays well-formed when a remote participant joins it.
proof fn lemma_peer_joined(v: SessionView, peer: PeerView)
    requires
        v.sound(),
        peer.endpoint.wf(),
        peer.endpoint.input_size == v.sync.input_size,
        peer.is_player() ==> peer.handle.0 < v.sync.queues.len()
            && v.sync.slots[peer.handle.0 as int].remote,
        !peer.is_player() ==> spectators(v.peers) < MAX_SPECTATORS,
    ensures
        (SessionView { peers: v.peers.push(peer), ..v }).sound(),
{
    let peers = v.peers.push(peer);
    assert(peers.drop_last() =~= v.peers);
    assert forall|i: int| 0 <= i < peers.len() implies {
        let p = #[trigger] peers[i];
        &&& p.endpoint.wf()
        &&& p.endpoint.input_size == v.sync.input_size
        &&& p.is_player() ==> p.handle.0 < v.sync.queues.len() && v.sync.slots[p.handle.0 as int].remote
    } by {
        if i < v.peers.len() {
            assert(peers[i] == v.peers[i]);
        }
    }
}

/// The place that a search by handle gives holds a peer of that handle.
pub proof fn lemma_index_of_handle(peers: Seq<PeerView>, handle: PlayerHandle)
    ensures
        -1 <= index_of_handle(peers, handle) < peers.len(),
        index_of_handle(peers, handle) >= 0 ==> peers[index_of_handle(peers, handle)].handle
            == handle,
        index_of_handle(peers, handle) < 0 ==> forall|i: int|
            0 <= i < peers.len() ==> (#[trigger] peers[i]).handle != handle,
    decreases peers.len(),
{
    if peers.len() > 0 {
        lemma_index_of_handle(peers.drop_last(), handle);
        if index_of_handle(peers, handle) < 0 {
            assert forall|i: int| 0 <= i < peers.len() implies (#[trigger] peers[i]).handle
                != handle by {
                if i < peers.len() - 1 {
                    assert(peers.drop_last()[i] == peers[i]);
                }
            }
        } else if index_of_handle(peers.drop_last(), handle) >= 0 {
            assert(peers.drop_last()[index_of_handle(peers, handle)] == peers[index_of_handle(
                peers,
                handle,
            )]);
        }
    }
}

/// A session stays well-formed when its manager takes a local input.
proof fn lemma_sync_changed_by_input(v: SessionView, p: int, bits: Seq<u8>)
    requires
        v.sound(),
        v.sync.after_local_input(p, bits).wf(),
    ensures
        (SessionView { sync: v.sync.after_local_input(p, bits), ..v }).sound(),
{
    lemma_sync_changed(v, v.sync.after_local_input(p, bits));
}

/// The histories of two players are independent: what the connections to
/// two different players report can be taken in either order.
pub proof fn lemma_reports_commute(
    sync: SyncView,
    first: PlayerHandle,
    e: ProtoEventView,
    second: PlayerHandle,
    f: ProtoEventView,
)
    requires
        sync.wf(),
        first != second,
    ensures
        absorbed(absorbed(sync, first, e), second, f) == absorbed(
            absorbed(sync, second, f),
            first,
            e,
        ),
{
    let a = absorbed(absorbed(sync, first, e), second, f);
    let b = absorbed(absorbed(sync, second, f), first, e);
    lemma_absorbed(sync, first, e);
    lemma_absorbed(sync, second, f);
    assert(a.queues =~= b.queues);
    assert(a.slots =~= b.slots);
}

/// A session refuses a local input for the prediction threshold exactly
/// when the current frame is more than the prediction window ahead of the
/// lowest confirmed watermark among the remote players that still take part;
/// for a request, that is, that is not refused for another reason before:
/// the handshakes are done, no replay is due or under way, the handle names a
/// local player and the bits have the right length.
pub proof fn lemma_session_prediction_bound(v: SessionView, handle: PlayerHandle, bits: Seq<u8>)
    requires
        v.wf(),
        !v.not_synchronized(),
        !v.sync.rolling_back(),
        handle.0 < v.sync.queues.len(),
        !v.sync.slots[handle.0 as int].remote,
        bits.len() == v.sync.input_size,
    ensures
        v.local_input_result(handle, bits) == Err::<(), GGPOError>(GGPOError::PredictionThreshold)
            <==> v.sync.current_frame - v.sync.min_confirmed() > v.sync.prediction_window,
        v.sync.current_frame - v.sync.min_confirmed() <= v.sync.prediction_window
            && v.sync.target_frame(handle.0 as int) >= v.sync.queues[handle.0 as int].confirmed.len()
            && v.sync.target_frame(handle.0 as int) <= i32::MAX ==> v.local_input_result(
            handle,
            bits,
        ).is_ok(),
{
    crate::sync::lemma_prediction_bound(v.sync, handle.0 as int, bits);
}

/// A session stays well-formed when its peers keep their handles, their
/// addresses and their timeouts, and its players take part as its
/// connections say. Where `given` is not set, the connections and the flags
/// of the players are as they were.
pub proof fn lemma_wf_carries(v: SessionView, next: SessionView, given: bool)
    requires
        v.wf(),
        next.sound(),
        next.peers.len() == v.peers.len(),
        next.disconnect_notify_start <= next.disconnect_timeout,
        forall|i: int|
            0 <= i < v.peers.len() ==> {
                let p = #[trigger] next.peers[i];
                &&& p.handle == v.peers[i].handle
                &&& p.address == v.peers[i].address
                &&& p.endpoint.disconnect_timeout == next.disconnect_timeout
                &&& p.endpoint.disconnect_notify_start == next.disconnect_notify_start
            },
        given ==> next.flags_agree(),
        !given ==> next.sync.slots == v.sync.slots && forall|i: int|
            0 <= i < v.peers.len() ==> (#[trigger] next.peers[i]).endpoint.state
                == v.peers[i].endpoint.state,
        next.sync.slots.len() == v.sync.slots.len(),
        forall|q: int|
            0 <= q < v.sync.slots.len() ==> (#[trigger] next.sync.slots[q]).remote
                == v.sync.slots[q].remote,
        next.inputs_agree(),
    ensures
        next.wf(),
{
    lemma_spectators_same_handles(v.peers, next.peers);
    assert(next.remotes_have_peers()) by {
        assert forall|q: int|
            0 <= q < next.sync.slots.len() && (#[trigger] next.sync.slots[q]).remote implies exists|
            i: int,
        |
            0 <= i < next.peers.len() && (#[trigger] next.peers[i]).handle.0 == q by {
            assert(v.sync.slots[q].remote);
            let w = choose|i: int| 0 <= i < v.peers.len() && (#[trigger] v.peers[i]).handle.0 == q;
            assert(next.peers[w].handle.0 == q);
        }
    }
    assert(next.distinct()) by {
        assert forall|i: int, j: int|
            #![trigger next.peers[i], next.peers[j]]
            0 <= i < j < next.peers.len() implies next.peers[i].handle != next.peers[j].handle
            && next.peers[i].address != next.peers[j].address by {
            assert(v.peers[i].handle != v.peers[j].handle && v.peers[i].address
                != v.peers[j].address);
        }
    }
    assert(next.spectators_numbered()) by {
        assert forall|i: int|
            0 <= i < next.peers.len() && !(#[trigger] next.peers[i]).is_player() implies next.peers[i].handle.0
            < SPECTATOR_BASE + spectators(next.peers) by {
            assert(!v.peers[i].is_player());
        }
    }
    if !given {
        assert forall|i: int|
            0 <= i < next.peers.len() && (#[trigger] next.peers[i]).is_player() implies (
        next.sync.slots[next.peers[i].handle.0 as int].connected <==> next.peers[i].endpoint.state
            != ConnState::Disconnected) by {
            assert(v.peers[i].is_player());
        }
    }
}

/// The place that a search by address gives holds a peer at that address;
/// where it gives none, no peer is at that address.
pub proof fn lemma_index_of_address(peers: Seq<PeerView>, address: PeerAddress)
    ensures
        -1 <= index_of_address(peers, address) < peers.len(),
        index_of_address(peers, address) >= 0 ==> peers[index_of_address(peers, address)].address
            == address,
        index_of_address(peers, address) < 0 ==> forall|i: int|
            0 <= i < peers.len() ==> (#[trigger] peers[i]).address != address,
    decreases peers.len(),
{
    if peers.len() > 0 {
        lemma_index_of_address(peers.drop_last(), address);
        if index_of_address(peers, address) < 0 {
            assert forall|i: int| 0 <= i < peers.len() implies (#[trigger] peers[i]).address
                != address by {
                if i < peers.len() - 1 {
                    assert(peers.drop_last()[i] == peers[i]);
                }
            }
        } else if index_of_address(peers.drop_last(), address) >= 0 {
            assert(peers.drop_last()[index_of_address(peers, address)] == peers[index_of_address(
                peers,
                address,
            )]);
        }
    }
}

/// A session stays well-formed when a participant joins it.
pub proof fn lemma_joined(v: SessionView, player: Player)
    requires
        v.wf(),
        v.add_player_result(player).is_ok(),
        v.after_add_player(player).sound(),
    ensures
        v.after_add_player(player).wf(),
{
    let next = v.after_add_player(player);
    let handle = v.add_player_result(player).unwrap();
    match player {
        Player::Local => {
            assert(next.peers == v.peers);
            assert forall|i: int|
                0 <= i < next.peers.len() && (#[trigger] next.peers[i]).is_player() implies (
            next.sync.slots[next.peers[i].handle.0 as int].connected
                <==> next.peers[i].endpoint.state != ConnState::Disconnected) by {
                assert(v.peers[i].is_player());
                assert(next.sync.slots[v.peers[i].handle.0 as int]
                    == v.sync.slots[v.peers[i].handle.0 as int]);
            }
            assert forall|q: int|
                0 <= q < v.sync.slots.len() implies (#[trigger] next.sync.slots[q]).remote
                == v.sync.slots[q].remote by {}
            assert(next.remotes_have_peers()) by {
                assert forall|q: int|
                    0 <= q < next.sync.slots.len() && (#[trigger] next.sync.slots[q]).remote implies exists|
                    i: int,
                |
                    0 <= i < next.peers.len() && (#[trigger] next.peers[i]).handle.0 == q by {
                    assert(q < v.sync.slots.len());
                    assert(v.sync.slots[q].remote);
                    let w = choose|i: int|
                        0 <= i < v.peers.len() && (#[trigger] v.peers[i]).handle.0 == q;
                    assert(next.peers[w].handle.0 == q);
                }
            }
            assert(next.inputs_agree()) by {
                assert forall|i: int|
                    0 <= i < next.peers.len() && (#[trigger] next.peers[i]).is_player() implies {
                    &&& next.peers[i].endpoint.last_received_frame + 1
                        == next.sync.queues[next.peers[i].handle.0 as int].confirmed.len()
                    &&& inputs_told(next.peers[i].endpoint.events) == 0
                } by {
                    assert(v.peers[i].is_player());
                    assert(next.sync.queues[v.peers[i].handle.0 as int]
                        == v.sync.queues[v.peers[i].handle.0 as int]);
                }
            }
            assert(next.sound() && next.distinct() && next.spectators_numbered()
                && next.timeouts_agree());
        },
        _ => {
            let address = match player {
                Player::Remote(a) => a,
                Player::Spectator(a) => a,
                Player::Local => arbitrary(),
            };
            lemma_index_of_address(v.peers, address);
            let n = v.peers.len() as int;
            assert(next.peers.len() == n + 1);
            assert(next.peers.drop_last() =~= v.peers);
            assert(next.peers[n].handle == handle);
            assert(next.peers[n].address == address);
            assert forall|i: int| 0 <= i < n implies (#[trigger] next.peers[i]) == v.peers[i] by {}
            assert(next.distinct()) by {
                assert forall|i: int, j: int|
                    #![trigger next.peers[i], next.peers[j]]
                    0 <= i < j < next.peers.len() implies next.peers[i].handle
                    != next.peers[j].handle && next.peers[i].address != next.peers[j].address by {
                    assert(next.peers[i] == v.peers[i]);
                    if j < n {
                        assert(next.peers[j] == v.peers[j]);
                        assert(v.peers[i].handle != v.peers[j].handle && v.peers[i].address
                            != v.peers[j].address);
                    } else {
                        assert(v.peers[i].address != address);
                        if v.peers[i].is_player() {
                            assert(v.peers[i].handle.0 < v.sync.queues.len());
                        } else {
                            assert(v.peers[i].handle.0 < SPECTATOR_BASE + spectators(v.peers));
                        }
                    }
                }
            }
            assert(next.spectators_numbered()) by {
                assert forall|i: int|
                    0 <= i < next.peers.len() && !(#[trigger] next.peers[i]).is_player() implies next.peers[i].handle.0
                    < SPECTATOR_BASE + spectators(next.peers) by {
                    if i < n {
                        assert(next.peers[i] == v.peers[i]);
                        assert(!v.peers[i].is_player());
                    }
                }
            }
            assert(next.timeouts_agree()) by {
                assert forall|i: int| 0 <= i < next.peers.len() implies (
                #[trigger] next.peers[i]).endpoint.disconnect_timeout == next.disconnect_timeout
                    && next.peers[i].endpoint.disconnect_notify_start
                    == next.disconnect_notify_start by {
                    if i < n {
                        assert(next.peers[i] == v.peers[i]);
                    }
                }
            }
            assert(next.flags_agree()) by {
                assert forall|i: int|
                    0 <= i < next.peers.len() && (#[trigger] next.peers[i]).is_player() implies (
                next.sync.slots[next.peers[i].handle.0 as int].connected
                    <==> next.peers[i].endpoint.state != ConnState::Disconnected) by {
                    if i < n {
                        assert(next.peers[i] == v.peers[i]);
                        assert(v.peers[i].is_player());
                        if !(player is Spectator) {
                            assert(next.sync.slots[v.peers[i].handle.0 as int]
                                == v.sync.slots[v.peers[i].handle.0 as int]);
                        }
                    }
                }
            }
            assert(next.remotes_have_peers()) by {
                assert forall|q: int|
                    0 <= q < next.sync.slots.len() && (#[trigger] next.sync.slots[q]).remote implies exists|
                    i: int,
                |
                    0 <= i < next.peers.len() && (#[trigger] next.peers[i]).handle.0 == q by {
                    if q < v.sync.slots.len() {
                        assert(next.sync.slots[q] == v.sync.slots[q]);
                        let w = choose|i: int|
                            0 <= i < v.peers.len() && (#[trigger] v.peers[i]).handle.0 == q;
                        assert(next.peers[w] == v.peers[w]);
                        assert(next.peers[w].handle.0 == q);
                    } else {
                        assert(next.peers[n].handle.0 == q);
                    }
                }
            }
            assert(next.inputs_agree()) by {
                assert forall|i: int|
                    0 <= i < next.peers.len() && (#[trigger] next.peers[i]).is_player() implies {
                    &&& next.peers[i].endpoint.last_received_frame + 1
                        == next.sync.queues[next.peers[i].handle.0 as int].confirmed.len()
                    &&& inputs_told(next.peers[i].endpoint.events) == 0
                } by {
                    if i < n {
                        assert(next.peers[i] == v.peers[i]);
                        assert(v.peers[i].is_player());
                        if !(player is Spectator) {
                            assert(next.sync.queues[v.peers[i].handle.0 as int]
                                == v.sync.queues[v.peers[i].handle.0 as int]);
                        }
                    } else {
                        assert(next.peers[n].endpoint.events =~= Seq::<ProtoEventView>::empty());
                    }
                }
            }
        },
    }
}

/// `next` can be the peers `before` some steps later: the same peers at the
/// same addresses, each connection some steps later.
pub open spec fn peers_lead_to(before: Seq<PeerView>, next: Seq<PeerView>) -> bool {
    &&& next.len() == before.len()
    &&& forall|i: int|
        0 <= i < before.len() ==> {
            let p = #[trigger] next[i];
            &&& p.handle == before[i].handle
            &&& p.address == before[i].address
            &&& p.endpoint.wf()
            &&& before[i].endpoint.leads_to(p.endpoint)
        }
}

/// The connection to player `q` has told that the peer was given up.
pub open spec fn told_gone(peers: Seq<PeerView>, q: int) -> bool {
    exists|i: int|
        0 <= i < peers.len() && (#[trigger] peers[i]).is_player() && peers[i].handle.0 == q
            && disconnections(peers[i].endpoint.events) > 0
}

proof fn lemma_deliver_leads(peers: Seq<PeerView>, d: DatagramView, now: u64)
    requires
        forall|i: int| 0 <= i < peers.len() ==> (#[trigger] peers[i]).endpoint.wf(),
    ensures
        peers_lead_to(peers, deliver(peers, d, now)),
{
    let i = index_of_address(peers, d.address);
    lemma_index_of_address(peers, d.address);
    let next = deliver(peers, d, now);
    assert forall|k: int| 0 <= k < peers.len() implies {
        let p = #[trigger] next[k];
        &&& p.handle == peers[k].handle
        &&& p.address == peers[k].address
        &&& p.endpoint.wf()
        &&& peers[k].endpoint.leads_to(p.endpoint)
    } by {
        assert(peers[k].endpoint.wf());
        match spec_decode(d.payload) {
            Some(m) => {
                if k == i {
                    lemma_steps(peers[k].endpoint, m, arbitrary(), 0, now, 0);
                }
            },
            None => {},
        }
    }
}

proof fn lemma_deliver_all_leads(peers: Seq<PeerView>, incoming: Seq<DatagramView>, now: u64)
    requires
        forall|i: int| 0 <= i < peers.len() ==> (#[trigger] peers[i]).endpoint.wf(),
    ensures
        peers_lead_to(peers, deliver_all(peers, incoming, now)),
    decreases incoming.len(),
{
    if incoming.len() > 0 {
        let mid = deliver_all(peers, incoming.drop_last(), now);
        lemma_deliver_all_leads(peers, incoming.drop_last(), now);
        assert forall|i: int| 0 <= i < mid.len() implies (#[trigger] mid[i]).endpoint.wf() by {}
        lemma_deliver_leads(mid, incoming.last(), now);
        let next = deliver_all(peers, incoming, now);
        assert forall|k: int| 0 <= k < peers.len() implies {
            let p = #[trigger] next[k];
            &&& p.handle == peers[k].handle
            &&& p.address == peers[k].address
            &&& p.endpoint.wf()
            &&& peers[k].endpoint.leads_to(p.endpoint)
        } by {
            assert(peers[k].endpoint.leads_to(mid[k].endpoint));
            assert(mid[k].endpoint.leads_to(next[k].endpoint));
        }
    } else {
        assert forall|k: int| 0 <= k < peers.len() implies peers[k].endpoint.leads_to(
            (#[trigger] peers[k]).endpoint,
        ) by {
            assert(peers[k].endpoint.wf());
        }
    }
}

proof fn lemma_ticked_leads(peers: Seq<PeerView>, frame: Frame, now: u64, nonce: u32)
    requires
        forall|i: int| 0 <= i < peers.len() ==> (#[trigger] peers[i]).endpoint.wf(),
    ensures
        peers_lead_to(peers, ticked(peers, frame, now, nonce)),
{
    let next = ticked(peers, frame, now, nonce);
    assert forall|k: int| 0 <= k < peers.len() implies {
        let p = #[trigger] next[k];
        &&& p.handle == peers[k].handle
        &&& p.address == peers[k].address
        &&& p.endpoint.wf()
        &&& peers[k].endpoint.leads_to(p.endpoint)
    } by {
        let e = peers[k].endpoint;
        assert(e.wf());
        lemma_steps(e, arbitrary(), arbitrary(), frame, now, nonce);
        lemma_steps(e.note_local_frame(frame), arbitrary(), arbitrary(), frame, now, nonce);
    }
}

/// Taking the reports of one connection ends the part of its player where
/// the reports tell that the peer was given up, and of no one else.
proof fn lemma_absorbed_all_slots(
    sync: SyncView,
    handle: PlayerHandle,
    events: Seq<ProtoEventView>,
    q: int,
)
    requires
        sync.wf(),
        0 <= q < sync.slots.len(),
    ensures
        ({
            let next = absorbed_all(sync, handle, events);
            &&& next.slots.len() == sync.slots.len()
            &&& next.slots[q].connected <==> sync.slots[q].connected && !(handle.0
                < SPECTATOR_BASE && handle.0 == q && disconnections(events) > 0)
        }),
    decreases events.len(),
{
    if events.len() > 0 {
        lemma_absorbed_all_slots(sync, handle, events.drop_last(), q);
        lemma_absorbed_all(sync, handle, events.drop_last());
    }
}

/// Taking the reports of all connections ends the part of the players whose
/// connections tell that the peer was given up, and of no one else.
proof fn lemma_absorbed_peers_slots(sync: SyncView, peers: Seq<PeerView>, q: int)
    requires
        sync.wf(),
        0 <= q < sync.slots.len(),
    ensures
        ({
            let next = absorbed_peers(sync, peers);
            &&& next.slots.len() == sync.slots.len()
            &&& next.slots[q].connected <==> sync.slots[q].connected && !told_gone(peers, q)
        }),
    decreases peers.len(),
{
    if peers.len() > 0 {
        let head = peers.drop_last();
        let last = peers.last();
        let mid = absorbed_peers(sync, head);
        lemma_absorbed_peers_slots(sync, head, q);
        lemma_absorbed_peers(sync, head);
        lemma_absorbed_all_slots(mid, last.handle, last.endpoint.events, q);
        let here = last.is_player() && last.handle.0 == q && disconnections(
            last.endpoint.events,
        ) > 0;
        if told_gone(head, q) {
            let w = choose|i: int|
                0 <= i < head.len() && (#[trigger] head[i]).is_player() && head[i].handle.0 == q
                    && disconnections(head[i].endpoint.events) > 0;
            assert(peers[w] == head[w]);
        }
        if here {
            assert(peers[peers.len() - 1] == last);
        }
        if told_gone(peers, q) {
            let w = choose|i: int|
                0 <= i < peers.len() && (#[trigger] peers[i]).is_player() && peers[i].handle.0
                    == q && disconnections(peers[i].endpoint.events) > 0;
            if w < peers.len() - 1 {
                assert(head[w] == peers[w]);
            }
        }
    }
}

/// After a tick the session is well-formed: its peers are those it had, and
/// a remote player takes part exactly if the connection to it was not given
/// up, in this tick or before.
pub proof fn lemma_tick_settles(
    v: SessionView,
    incoming: Seq<DatagramView>,
    now: u64,
    nonce: u32,
    next: SessionView,
)
    requires
        v.wf(),
        next.sound(),
        next.peers == drained(
            ticked(
                deliver_all(v.peers, incoming, now),
                v.sync.current_frame as Frame,
                now,
                nonce,
            ),
        ),
        next.sync.slots == absorbed_peers(
            v.sync,
            ticked(
                deliver_all(v.peers, incoming, now),
                v.sync.current_frame as Frame,
                now,
                nonce,
            ),
        ).slots,
        next.disconnect_timeout == v.disconnect_timeout,
        next.disconnect_notify_start == v.disconnect_notify_start,
        forall|p: int|
            0 <= p < v.sync.queues.len() ==> (#[trigger] next.sync.queues[p]).confirmed.len()
                == absorbed_peers(
                v.sync,
                ticked(
                    deliver_all(v.peers, incoming, now),
                    v.sync.current_frame as Frame,
                    now,
                    nonce,
                ),
            ).queues[p].confirmed.len(),
    ensures
        next.wf(),
{
    let frame = v.sync.current_frame as Frame;
    let arrived = deliver_all(v.peers, incoming, now);
    let peers = ticked(arrived, frame, now, nonce);
    assert forall|i: int| 0 <= i < v.peers.len() implies (#[trigger] v.peers[i]).endpoint.wf() by {}
    lemma_deliver_all_leads(v.peers, incoming, now);
    assert forall|i: int| 0 <= i < arrived.len() implies (#[trigger] arrived[i]).endpoint.wf() by {}
    lemma_ticked_leads(arrived, frame, now, nonce);
    assert forall|i: int| 0 <= i < v.peers.len() implies {
        let p = #[trigger] peers[i];
        &&& p.handle == v.peers[i].handle
        &&& p.address == v.peers[i].address
        &&& p.endpoint.wf()
        &&& v.peers[i].endpoint.leads_to(p.endpoint)
    } by {
        assert(v.peers[i].endpoint.leads_to(arrived[i].endpoint));
        assert(arrived[i].endpoint.leads_to(peers[i].endpoint));
    }
    assert forall|i: int| 0 <= i < v.peers.len() implies {
        let p = #[trigger] next.peers[i];
        &&& p.handle == v.peers[i].handle
        &&& p.address == v.peers[i].address
        &&& p.endpoint.state == peers[i].endpoint.state
        &&& p.endpoint.disconnect_timeout == next.disconnect_timeout
        &&& p.endpoint.disconnect_notify_start == next.disconnect_notify_start
    } by {
        assert(v.peers[i].endpoint.leads_to(peers[i].endpoint));
    }
    assert(next.flags_agree()) by {
        assert forall|i: int|
            0 <= i < next.peers.len() && (#[trigger] next.peers[i]).is_player() implies (
        next.sync.slots[next.peers[i].handle.0 as int].connected <==> next.peers[i].endpoint.state
            != ConnState::Disconnected) by {
            let h = v.peers[i].handle;
            let q = h.0 as int;
            assert(v.peers[i].is_player());
            assert(q < v.sync.slots.len());
            lemma_absorbed_peers_slots(v.sync, peers, q);
            assert(v.peers[i].endpoint.leads_to(peers[i].endpoint));
            if peers[i].endpoint.state != ConnState::Disconnected {
                if told_gone(peers, q) {
                    let w = choose|w: int|
                        0 <= w < peers.len() && (#[trigger] peers[w]).is_player()
                            && peers[w].handle.0 == q && disconnections(
                            peers[w].endpoint.events,
                        ) > 0;
                    assert(peers[w].endpoint.wf());
                    if w < i {
                        assert(v.peers[w].handle != v.peers[i].handle);
                    } else if i < w {
                        assert(v.peers[i].handle != v.peers[w].handle);
                    }
                }
            } else if v.peers[i].endpoint.state != ConnState::Disconnected {
                assert(peers[i].is_player() && peers[i].handle.0 == q && disconnections(
                    peers[i].endpoint.events,
                ) > 0);
            }
        }
    }
    lemma_absorbed_peers(v.sync, peers);
    assert forall|q: int| 0 <= q < v.sync.slots.len() implies (#[trigger] next.sync.slots[q]).remote
        == v.sync.slots[q].remote by {
        assert(absorbed_peers(v.sync, peers).slots[q].remote == v.sync.slots[q].remote);
    }
    assert(next.inputs_agree()) by {
        assert forall|i: int|
            0 <= i < next.peers.len() && (#[trigger] next.peers[i]).is_player() implies {
            &&& next.peers[i].endpoint.last_received_frame + 1
                == next.sync.queues[next.peers[i].handle.0 as int].confirmed.len()
            &&& inputs_told(next.peers[i].endpoint.events) == 0
        } by {
            let h = v.peers[i].handle.0 as int;
            let before = v.peers[i].endpoint;
            let after = peers[i].endpoint;
            assert(v.peers[i].is_player());
            assert(before.leads_to(after));
            assert(after.input_size == v.sync.input_size);
            assert forall|j: int| 0 <= j < peers.len() && j != i implies (
            #[trigger] peers[j]).handle != peers[i].handle by {
                if j < i {
                    assert(v.peers[j].handle != v.peers[i].handle);
                } else {
                    assert(v.peers[i].handle != v.peers[j].handle);
                }
            }
            lemma_absorbed_peers_inputs(v.sync, peers, i);
            assert(next.peers[i].endpoint.events =~= Seq::<ProtoEventView>::empty());
        }
    }
    lemma_wf_carries(v, next, true);
}

/// Datagrams that come from elsewhere leave the connection to a peer as it
/// is.
proof fn lemma_deliver_all_elsewhere(
    peers: Seq<PeerView>,
    incoming: Seq<DatagramView>,
    now: u64,
    i: int,
)
    requires
        0 <= i < peers.len(),
        forall|k: int| 0 <= k < peers.len() ==> (#[trigger] peers[k]).endpoint.wf(),
        forall|k: int| 0 <= k < incoming.len() ==> (#[trigger] incoming[k]).address != peers[i].address,
    ensures
        deliver_all(peers, incoming, now).len() == peers.len(),
        deliver_all(peers, incoming, now)[i] == peers[i],
    decreases incoming.len(),
{
    if incoming.len() > 0 {
        let head = incoming.drop_last();
        let d = incoming.last();
        let mid = deliver_all(peers, head, now);
        assert forall|k: int| 0 <= k < head.len() implies (#[trigger] head[k]).address
            != peers[i].address by {
            assert(head[k] == incoming[k]);
        }
        lemma_deliver_all_elsewhere(peers, head, now, i);
        lemma_deliver_all_leads(peers, head, now);
        lemma_index_of_address(mid, d.address);
        assert(d == incoming[incoming.len() - 1]);
        assert(mid[i].address == peers[i].address);
    }
}

/// In a tick in which no datagram comes from a peer, the connection to that
/// peer takes one step of [`EndpointView::silent_ticks`]: the session notes
/// its frame, drives the connection and fetches what waits in its queues.
pub proof fn lemma_silent_tick(
    v: SessionView,
    incoming: Seq<DatagramView>,
    now: u64,
    nonce: u32,
    i: int,
)
    requires
        v.wf(),
        0 <= i < v.peers.len(),
        forall|k: int| 0 <= k < incoming.len() ==> (#[trigger] incoming[k]).address != v.peers[i].address,
    ensures
        ({
            let frame = v.sync.current_frame as Frame;
            let peers = ticked(deliver_all(v.peers, incoming, now), frame, now, nonce);
            let step = v.peers[i].endpoint.note_local_frame(frame).poll(now, nonce);
            &&& peers.len() == v.peers.len()
            &&& peers[i].handle == v.peers[i].handle
            &&& peers[i].endpoint == step
            &&& drained(peers)[i].endpoint == step.drained()
        }),
{
    assert forall|k: int| 0 <= k < v.peers.len() implies (#[trigger] v.peers[k]).endpoint.wf() by {}
    lemma_deliver_all_elsewhere(v.peers, incoming, now, i);
}

/// What the game is told of a remote participant that falls silent while
/// its connection runs, by the time a tick finds it silent for `idle`
/// milliseconds: once that the connection is interrupted and then once that
/// the participant is gone, and nothing else.
pub proof fn lemma_told_of_silence(handle: PlayerHandle, e: EndpointView, idle: u64)
    ensures
        told_all(handle, e.silence_events(idle)) == if idle > e.disconnect_notify_start && idle
            >= e.disconnect_timeout {
            seq![
                Event::ConnectionInterrupted {
                    player: handle,
                    disconnect_timeout: capped_i32(
                        crate::network::udp_proto::elapsed(
                            e.disconnect_timeout,
                            e.disconnect_notify_start,
                        ) as int,
                    ),
                },
                Event::DisconnectedFromPeer { player: handle },
            ]
        } else if idle > e.disconnect_notify_start {
            seq![
                Event::ConnectionInterrupted {
                    player: handle,
                    disconnect_timeout: capped_i32(
                        crate::network::udp_proto::elapsed(
                            e.disconnect_timeout,
                            e.disconnect_notify_start,
                        ) as int,
                    ),
                },
            ]
        } else {
            Seq::<Event>::empty()
        },
{
    let events = e.silence_events(idle);
    let rest = crate::network::udp_proto::elapsed(e.disconnect_timeout, e.disconnect_notify_start);
    let first = ProtoEventView::NetworkInterrupted { disconnect_timeout: rest };
    reveal_with_fuel(told_all, 3);
    if idle > e.disconnect_notify_start {
        let one = seq![first];
        assert(one.drop_last() =~= Seq::<ProtoEventView>::empty());
        assert(one.last() == first);
        if idle >= e.disconnect_timeout {
            assert(events =~= one.push(ProtoEventView::Disconnected));
            assert(events.drop_last() =~= one);
            assert(events.last() == ProtoEventView::Disconnected);
            assert(told_all(handle, events) =~= seq![
                Event::ConnectionInterrupted {
                    player: handle,
                    disconnect_timeout: capped_i32(rest as int),
                },
                Event::DisconnectedFromPeer { player: handle },
            ]);
        } else {
            assert(events =~= one);
            assert(told_all(handle, events) =~= seq![
                Event::ConnectionInterrupted {
                    player: handle,
                    disconnect_timeout: capped_i32(rest as int),
                },
            ]);
        }
    } else {
        assert(events =~= Seq::<ProtoEventView>::empty());
    }
}

/// The connections agree with the histories as before when they have taken
/// nothing since and the histories of the remote players are as long as
/// they were.
pub proof fn lemma_inputs_carry(v: SessionView, next: SessionView)
    requires
        v.wf(),
        next.peers.len() == v.peers.len(),
        forall|i: int|
            0 <= i < v.peers.len() ==> {
                let p = #[trigger] next.peers[i];
                &&& p.handle == v.peers[i].handle
                &&& p.endpoint.last_received_frame == v.peers[i].endpoint.last_received_frame
                &&& p.endpoint.events == v.peers[i].endpoint.events
            },
        forall|q: int|
            0 <= q < v.sync.queues.len() ==> (#[trigger] next.sync.queues[q]).confirmed.len()
                == v.sync.queues[q].confirmed.len(),
    ensures
        next.inputs_agree(),
{
    assert forall|i: int|
        0 <= i < next.peers.len() && (#[trigger] next.peers[i]).is_player() implies {
        &&& next.peers[i].endpoint.last_received_frame + 1
            == next.sync.queues[next.peers[i].handle.0 as int].confirmed.len()
        &&& inputs_told(next.peers[i].endpoint.events) == 0
    } by {
        assert(v.peers[i].is_player());
    }
}

/// The reports of a connection leave the histories and the parts of the
/// other players as they are.
proof fn lemma_absorbed_all_elsewhere(
    sync: SyncView,
    handle: PlayerHandle,
    events: Seq<ProtoEventView>,
    q: int,
)
    requires
        sync.wf(),
        0 <= q < sync.queues.len(),
        handle.0 != q,
    ensures
        absorbed_all(sync, handle, events).queues.len() == sync.queues.len(),
        absorbed_all(sync, handle, events).queues[q] == sync.queues[q],
        absorbed_all(sync, handle, events).slots[q] == sync.slots[q],
    decreases events.len(),
{
    if events.len() > 0 {
        lemma_absorbed_all_elsewhere(sync, handle, events.drop_last(), q);
        lemma_absorbed_all(sync, handle, events.drop_last());
    }
}

/// The same, for the reports of all connections but those to player `q`.
proof fn lemma_absorbed_peers_elsewhere(sync: SyncView, peers: Seq<PeerView>, q: int)
    requires
        sync.wf(),
        0 <= q < sync.queues.len(),
        forall|j: int| 0 <= j < peers.len() ==> (#[trigger] peers[j]).handle.0 != q,
    ensures
        absorbed_peers(sync, peers).queues.len() == sync.queues.len(),
        absorbed_peers(sync, peers).queues[q] == sync.queues[q],
        absorbed_peers(sync, peers).slots[q] == sync.slots[q],
    decreases peers.len(),
{
    if peers.len() > 0 {
        let head = peers.drop_last();
        assert forall|j: int| 0 <= j < head.len() implies (#[trigger] head[j]).handle.0 != q by {
            assert(head[j] == peers[j]);
        }
        lemma_absorbed_peers_elsewhere(sync, head, q);
        lemma_absorbed_peers(sync, head);
        assert(peers.last() == peers[peers.len() - 1]);
        lemma_absorbed_all_elsewhere(
            absorbed_peers(sync, head),
            peers.last().handle,
            peers.last().endpoint.events,
            q,
        );
    }
}

/// Every input that a connection hands over is taken into the history of
/// its player: the inputs come in the order of the frames, from the frame
/// after the confirmed watermark on, and none comes after the player was
/// given up.
proof fn lemma_absorbed_all_inputs(
    sync: SyncView,
    handle: PlayerHandle,
    events: Seq<ProtoEventView>,
    last: int,
)
    requires
        sync.wf(),
        handle.0 < SPECTATOR_BASE,
        handle.0 < sync.queues.len(),
        sync.slots[handle.0 as int].remote,
        inputs_in_order(events, last, sync.input_size),
        sync.slots[handle.0 as int].connected || inputs_told(events) == 0,
        last + 1 == sync.queues[handle.0 as int].confirmed.len() + inputs_told(events),
        last <= i32::MAX,
    ensures
        absorbed_all(sync, handle, events).queues[handle.0 as int].confirmed.len() == last + 1,
    decreases events.len(),
{
    let h = handle.0 as int;
    if events.len() > 0 {
        let head = events.drop_last();
        let e = events.last();
        let mid = absorbed_all(sync, handle, head);
        lemma_absorbed_all(sync, handle, head);
        lemma_absorbed_all_slots(sync, handle, head, h);
        match e {
            ProtoEventView::Input { frame, bits } => {
                lemma_absorbed_all_inputs(sync, handle, head, last - 1);
                assert(mid.slots[h].connected);
                assert(mid.slots[h].remote);
                assert(mid.takes_remote_input(h, frame as int, bits));
            },
            _ => {
                lemma_absorbed_all_inputs(sync, handle, head, last);
            },
        }
    }
}

/// After the reports of all connections were taken, the history of the
/// player of connection `i` holds every input that the connection has taken
/// from the peer.
proof fn lemma_absorbed_peers_inputs(sync: SyncView, peers: Seq<PeerView>, i: int)
    requires
        sync.wf(),
        0 <= i < peers.len(),
        peers[i].is_player(),
        peers[i].handle.0 < sync.queues.len(),
        sync.slots[peers[i].handle.0 as int].remote,
        forall|j: int| 0 <= j < peers.len() && j != i ==> (#[trigger] peers[j]).handle != peers[i].handle,
        peers[i].endpoint.wf(),
        peers[i].endpoint.input_size == sync.input_size,
        sync.slots[peers[i].handle.0 as int].connected || inputs_told(peers[i].endpoint.events)
            == 0,
        peers[i].endpoint.last_received_frame + 1 == sync.queues[peers[i].handle.0 as int].confirmed.len()
            + inputs_told(peers[i].endpoint.events),
    ensures
        absorbed_peers(sync, peers).queues[peers[i].handle.0 as int].confirmed.len()
            == peers[i].endpoint.last_received_frame + 1,
    decreases peers.len(),
{
    let h = peers[i].handle.0 as int;
    let head = peers.drop_last();
    let mid = absorbed_peers(sync, head);
    let tail = peers.last();
    assert(tail == peers[peers.len() - 1]);
    lemma_absorbed_peers(sync, head);
    if i == peers.len() - 1 {
        assert forall|j: int| 0 <= j < head.len() implies (#[trigger] head[j]).handle.0 != h by {
            assert(head[j] == peers[j]);
            assert(peers[j].handle != peers[i].handle);
        }
        lemma_absorbed_peers_elsewhere(sync, head, h);
        lemma_absorbed_all_inputs(
            mid,
            tail.handle,
            tail.endpoint.events,
            tail.endpoint.last_received_frame as int,
        );
    } else {
        assert(head[i] == peers[i]);
        assert forall|j: int| 0 <= j < head.len() && j != i implies (#[trigger] head[j]).handle
            != head[i].handle by {
            assert(head[j] == peers[j]);
        }
        lemma_absorbed_peers_inputs(sync, head, i);
        assert(tail.handle != peers[i].handle);
        lemma_absorbed_all_elsewhere(mid, tail.handle, tail.endpoint.events, h);
    }
}

} // verus!
