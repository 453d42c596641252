//! The connection to one remote peer.
//!
//! An endpoint is a state machine. It is driven by three things: the tick of
//! the session, a message that arrived from the peer, and a local input to
//! pass on. It answers by queueing messages for the peer and events for the
//! session. It reads no clock and draws no random numbers: the time, in
//! milliseconds, and the nonce of a handshake are handed in.
//!
//! A connection starts with a handshake of several round trips. Once it
//! runs, every local input is sent and kept until the peer has acknowledged
//! it, and it is sent again at growing intervals while it is kept. Every
//! input message acknowledges the peer's inputs; where an acknowledgment is
//! due and no input goes out, a message without an input carries it. A peer
//! that stays silent is first reported as interrupted and then given up.

use crate::game_input::{Frame, GameInput, GameInputView, NULL_FRAME};
use crate::ggpo::{GGPOError, Network};
use crate::network::udp_msg::{wire_len, UdpMsg, UdpMsgView};
use vstd::prelude::*;

verus! {

/// After how many milliseconds an unanswered handshake probe is repeated.
pub const SYNC_RETRY_INTERVAL: u64 = 500;

/// After how many milliseconds unacknowledged inputs are first sent again.
pub const RETRANSMIT_INTERVAL: u64 = 200;

/// After how many milliseconds without sending a keep-alive is sent.
pub const KEEP_ALIVE_INTERVAL: u64 = 200;

/// How many milliseconds lie between two quality reports.
pub const QUALITY_REPORT_INTERVAL: u64 = 1000;

/// The number of bytes that the transport adds to every datagram.
pub const UDP_HEADER_SIZE: u64 = 28;

/// The number of handshake round trips, unless the session asks otherwise.
pub const DEFAULT_SYNC_ROUND_TRIPS: u32 = 5;

/// After how many silent milliseconds a peer is given up, unless the session
/// asks otherwise.
pub const DEFAULT_DISCONNECT_TIMEOUT: u64 = 5000;

/// After how many silent milliseconds a peer is reported as interrupted,
/// unless the session asks otherwise.
pub const DEFAULT_DISCONNECT_NOTIFY_START: u64 = 750;

/// The state of a connection.
#[derive(Debug, Clone, Copy, PartialEq, Eq, Structural)]
pub enum ConnState {
    /// Nothing has been heard from the peer.
    Initializing,
    /// The peer has answered; the handshake is under way.
    Syncing,
    /// Inputs are exchanged.
    Running,
    /// The peer has been silent for a while.
    Interrupted,
    /// The peer was given up, or sent away. Nothing follows.
    Disconnected,
}

/// What an endpoint tells its session.
#[derive(Debug, PartialEq, Eq)]
pub enum ProtoEvent {
    Connected,
    Synchronizing { count: u32, total: u32 },
    Synchronized,
    Input { frame: Frame, bits: Vec<u8> },
    Disconnected,
    /// The peer has fallen silent; it is given up unless it is heard of
    /// within `disconnect_timeout` more milliseconds.
    NetworkInterrupted { disconnect_timeout: u64 },
    NetworkResumed,
}

/// Mathematical value of a [`ProtoEvent`].
pub enum ProtoEventView {
    Connected,
    Synchronizing { count: u32, total: u32 },
    Synchronized,
    Input { frame: Frame, bits: Seq<u8> },
    Disconnected,
    NetworkInterrupted { disconnect_timeout: u64 },
    NetworkResumed,
}

impl View for ProtoEvent {
    type V = ProtoEventView;

    open spec fn view(&self) -> ProtoEventView {
        match *self {
            ProtoEvent::Connected => ProtoEventView::Connected,
            ProtoEvent::Synchronizing { count, total } => ProtoEventView::Synchronizing {
                count,
                total,
            },
            ProtoEvent::Synchronized => ProtoEventView::Synchronized,
            ProtoEvent::Input { frame, bits } => ProtoEventView::Input { frame, bits: bits@ },
            ProtoEvent::Disconnected => ProtoEventView::Disconnected,
            ProtoEvent::NetworkInterrupted { disconnect_timeout } => ProtoEventView::NetworkInterrupted {
                disconnect_timeout,
            },
            ProtoEvent::NetworkResumed => ProtoEventView::NetworkResumed,
        }
    }
}

/// Mathematical value of an [`Endpoint`].
pub struct EndpointView {
    pub state: ConnState,
    /// Length in bytes of every input that is exchanged.
    pub input_size: nat,
    /// The number of round trips that make a handshake.
    pub sync_total: u32,
    /// The number of round trips that are done.
    pub sync_count: u32,
    /// A handshake probe is out and unanswered.
    pub awaiting: bool,
    /// The nonce of the probe that is out.
    pub nonce: u32,
    /// When the probe that is out was sent.
    pub last_sync_send: u64,
    /// The time that the last round trip took.
    pub round_trip_time: u64,
    /// The sequence number of the next message.
    pub next_sequence: u32,
    /// The highest sequence number of a message that was taken from the peer.
    pub last_processed: Option<u32>,
    /// The local inputs that the peer has not acknowledged.
    pub pending: Seq<GameInputView>,
    /// The highest local frame that the peer has acknowledged.
    pub last_acked_frame: Frame,
    /// The highest frame of the peer's input that was taken. Every frame up
    /// to it was taken too.
    pub last_received_frame: Frame,
    /// An input of the peer came in and no acknowledgment went out since.
    pub ack_due: bool,
    /// By how many frames this side believes to lag behind the peer.
    pub local_frames_behind: i32,
    /// By how many frames the peer believes to lag behind this side.
    pub remote_frames_behind: i32,
    pub disconnect_timeout: u64,
    pub disconnect_notify_start: u64,
    /// When the last message was taken from the peer.
    pub last_recv_time: u64,
    /// When the last message was queued for the peer.
    pub last_send_time: u64,
    /// How long to wait before the pending inputs are sent again.
    pub retransmit_interval: u64,
    /// When the pending inputs were last sent again.
    pub last_retransmit: u64,
    /// When the last quality report was queued.
    pub last_quality_report: u64,
    /// The bytes queued since the connection runs, headers included.
    pub bytes_sent: u64,
    /// Since when the connection runs.
    pub running_since: u64,
    /// The messages that wait to be sent, oldest first.
    pub outbox: Seq<UdpMsgView>,
    /// The events that wait to be fetched, oldest first.
    pub events: Seq<ProtoEventView>,
}

/// The milliseconds from `since` to `now`; none if `now` is the earlier.
pub open spec fn elapsed(now: u64, since: u64) -> u64 {
    if now >= since {
        (now - since) as u64
    } else {
        0
    }
}

/// `x`, or the largest 64-bit number if `x` is beyond it.
pub open spec fn saturated(x: int) -> u64 {
    if x > u64::MAX {
        u64::MAX
    } else {
        x as u64
    }
}

/// `x` held within the 32-bit signed numbers.
pub open spec fn clamped_i32(x: int) -> i32 {
    if x > i32::MAX {
        i32::MAX
    } else if x < i32::MIN {
        i32::MIN
    } else {
        x as i32
    }
}

/// The inputs of `pending` whose frame is after `ack`, in their order.
pub open spec fn unacknowledged(pending: Seq<GameInputView>, ack: Frame) -> Seq<GameInputView>
    decreases pending.len(),
{
    if pending.len() == 0 {
        pending
    } else if pending.last().frame > ack {
        unacknowledged(pending.drop_last(), ack).push(pending.last())
    } else {
        unacknowledged(pending.drop_last(), ack)
    }
}

/// The sequence number that a message carries, if it carries one.
pub open spec fn sequence_of(m: UdpMsgView) -> Option<u32> {
    match m {
        UdpMsgView::Input { sequence, .. } => Some(sequence),
        UdpMsgView::QualityReport { sequence, .. } => Some(sequence),
        UdpMsgView::QualityReply { sequence } => Some(sequence),
        UdpMsgView::KeepAlive { sequence } => Some(sequence),
        _ => None,
    }
}

impl EndpointView {
    pub open spec fn wf(self) -> bool {
        &&& self.sync_total >= 1
        &&& self.sync_count <= self.sync_total
        &&& (self.state == ConnState::Initializing || self.state == ConnState::Syncing)
            ==> self.sync_count < self.sync_total
        &&& self.last_received_frame >= NULL_FRAME
        &&& disconnections(self.events) > 0 ==> self.state == ConnState::Disconnected
        &&& inputs_in_order(self.events, self.last_received_frame as int, self.input_size)
    }

    /// `next` can be this endpoint some steps later: the settings are the
    /// same, a connection that was given up stays so, and one that is given
    /// up now was so before or has told the session since; and every input
    /// that was taken from the peer since waits to be fetched, while a
    /// connection that was given up has taken none.
    pub open spec fn leads_to(self, next: EndpointView) -> bool {
        &&& next.last_received_frame - inputs_told(next.events) == self.last_received_frame
            - inputs_told(self.events)
        &&& self.state == ConnState::Disconnected ==> inputs_told(next.events) == inputs_told(
            self.events,
        )
        &&& next.input_size == self.input_size
        &&& next.disconnect_timeout == self.disconnect_timeout
        &&& next.disconnect_notify_start == self.disconnect_notify_start
        &&& disconnections(next.events) >= disconnections(self.events)
        &&& self.state == ConnState::Disconnected ==> next.state == ConnState::Disconnected
        &&& next.state == ConnState::Disconnected ==> self.state == ConnState::Disconnected
            || disconnections(next.events) > 0
    }

    /// The handshake is not done.
    pub open spec fn syncing(self) -> bool {
        self.state == ConnState::Initializing || self.state == ConnState::Syncing
    }

    /// Inputs are exchanged, interrupted or not.
    pub open spec fn exchanging(self) -> bool {
        self.state == ConnState::Running || self.state == ConnState::Interrupted
    }

    /// The endpoint after `m` was queued for the peer.
    pub open spec fn post(self, m: UdpMsgView, now: u64) -> EndpointView {
        EndpointView {
            outbox: self.outbox.push(m),
            last_send_time: now,
            bytes_sent: saturated(self.bytes_sent + wire_len(m) + UDP_HEADER_SIZE),
            ..self
        }
    }

    /// The endpoint after a message that carries the next sequence number
    /// was queued. `make` builds the message from the number. Once the
    /// numbers are used up nothing is queued.
    pub open spec fn post_numbered(self, make: spec_fn(u32) -> UdpMsgView, now: u64) -> EndpointView {
        if self.next_sequence < u32::MAX {
            (EndpointView { next_sequence: (self.next_sequence + 1) as u32, ..self }).post(
                make(self.next_sequence),
                now,
            )
        } else {
            self
        }
    }

    /// The message that carries `input` under sequence number `sequence`.
    pub open spec fn input_msg(self, input: GameInputView, sequence: u32) -> UdpMsgView {
        UdpMsgView::Input {
            frame: input.frame,
            bits: input.bits,
            ack_frame: self.last_received_frame,
            sequence,
        }
    }

    /// The endpoint after `input` was queued for the peer. The message
    /// acknowledges what was taken from the peer.
    pub open spec fn post_input(self, input: GameInputView, now: u64) -> EndpointView {
        (EndpointView { ack_due: false, ..self }).post_numbered(
            |sequence: u32| self.input_msg(input, sequence),
            now,
        )
    }

    /// The endpoint after an acknowledgment was queued, if one is due: a
    /// message that carries no input, for no frame.
    pub open spec fn post_ack(self, now: u64) -> EndpointView {
        if self.ack_due {
            self.post_input(GameInputView { frame: NULL_FRAME, bits: Seq::empty() }, now)
        } else {
            self
        }
    }

    /// The endpoint after the first `n` pending inputs were queued again.
    pub open spec fn post_pending(self, n: int, now: u64) -> EndpointView
        decreases n,
    {
        if n <= 0 {
            self
        } else {
            self.post_pending(n - 1, now).post_input(self.pending[n - 1], now)
        }
    }

    /// The endpoint given up: nothing is pending and nothing waits to be
    /// sent any more, and the session is told.
    pub open spec fn shut(self) -> EndpointView {
        EndpointView {
            state: ConnState::Disconnected,
            pending: Seq::empty(),
            outbox: Seq::empty(),
            events: self.events.push(ProtoEventView::Disconnected),
            ..self
        }
    }

    /// The endpoint after the silence of the peer was measured at `now`. A
    /// running connection whose peer has been silent for more than
    /// `disconnect_notify_start` becomes interrupted, an interrupted one whose
    /// peer has been silent for `disconnect_timeout` or more is given up.
    pub open spec fn watch(self, now: u64) -> EndpointView {
        let idle = elapsed(now, self.last_recv_time);
        let a = if self.state == ConnState::Running && idle > self.disconnect_notify_start {
            EndpointView {
                state: ConnState::Interrupted,
                events: self.events.push(
                    ProtoEventView::NetworkInterrupted {
                        disconnect_timeout: elapsed(
                            self.disconnect_timeout,
                            self.disconnect_notify_start,
                        ),
                    },
                ),
                ..self
            }
        } else {
            self
        };
        if a.state == ConnState::Interrupted && idle >= a.disconnect_timeout {
            a.shut()
        } else {
            a
        }
    }

    /// The interval that follows `interval` in the schedule of repeats: twice
    /// as long, but no longer than the disconnect timeout.
    pub open spec fn backed_off(self) -> u64 {
        let doubled = saturated(2 * self.retransmit_interval);
        if doubled > self.disconnect_timeout {
            self.disconnect_timeout
        } else {
            doubled
        }
    }

    /// The endpoint after the pending inputs were sent again, if it is time.
    pub open spec fn resend(self, now: u64) -> EndpointView {
        if self.pending.len() > 0 && elapsed(now, self.last_retransmit)
            >= self.retransmit_interval {
            EndpointView {
                last_retransmit: now,
                retransmit_interval: self.backed_off(),
                ..self.post_pending(self.pending.len() as int, now)
            }
        } else {
            self
        }
    }

    /// The round trip time as the quality report carries it.
    pub open spec fn ping(self) -> u32 {
        if self.round_trip_time > u32::MAX {
            u32::MAX
        } else {
            self.round_trip_time as u32
        }
    }

    /// The endpoint after a quality report was queued, if it is time.
    pub open spec fn report_quality(self, now: u64) -> EndpointView {
        if elapsed(now, self.last_quality_report) >= QUALITY_REPORT_INTERVAL {
            (EndpointView { last_quality_report: now, ..self }).post_numbered(
                |sequence: u32|
                    UdpMsgView::QualityReport {
                        frame_advantage: self.local_frames_behind,
                        ping: self.ping(),
                        sequence,
                    },
                now,
            )
        } else {
            self
        }
    }

    /// The endpoint after a keep-alive was queued, if nothing was queued for
    /// `KEEP_ALIVE_INTERVAL`.
    pub open spec fn keep_alive(self, now: u64) -> EndpointView {
        if elapsed(now, self.last_send_time) >= KEEP_ALIVE_INTERVAL {
            self.post_numbered(|sequence: u32| UdpMsgView::KeepAlive { sequence }, now)
        } else {
            self
        }
    }

    /// The endpoint after a tick during the handshake: a probe with `nonce`
    /// is queued when none is out or the one that is out is old.
    pub open spec fn poll_sync(self, now: u64, nonce: u32) -> EndpointView {
        if !self.awaiting || elapsed(now, self.last_sync_send) >= SYNC_RETRY_INTERVAL {
            (EndpointView { awaiting: true, nonce, last_sync_send: now, ..self }).post(
                UdpMsgView::SyncRequest { nonce },
                now,
            )
        } else {
            self
        }
    }

    /// The endpoint after a tick while inputs are exchanged.
    pub open spec fn poll_running(self, now: u64) -> EndpointView {
        let a = self.watch(now);
        if a.state == ConnState::Disconnected {
            a
        } else {
            a.resend(now).post_ack(now).report_quality(now).keep_alive(now)
        }
    }

    /// The endpoint after the tick at `now`.
    pub open spec fn poll(self, now: u64, nonce: u32) -> EndpointView {
        if self.state == ConnState::Disconnected {
            self
        } else if self.syncing() {
            self.poll_sync(now, nonce)
        } else {
            self.poll_running(now)
        }
    }

    /// The endpoint after a message of the peer was taken at `now`: the
    /// silence ends, and an interrupted connection runs again.
    pub open spec fn heard(self, now: u64) -> EndpointView {
        if self.state == ConnState::Interrupted {
            EndpointView {
                state: ConnState::Running,
                last_recv_time: now,
                events: self.events.push(ProtoEventView::NetworkResumed),
                ..self
            }
        } else {
            EndpointView { last_recv_time: now, ..self }
        }
    }

    /// The endpoint after the answer to the probe that is out came in: one
    /// more round trip is done, and with the last one the connection runs.
    pub open spec fn sync_step(self, now: u64) -> EndpointView {
        let count = (self.sync_count + 1) as u32;
        let greeted = if self.state == ConnState::Initializing {
            self.events.push(ProtoEventView::Connected)
        } else {
            self.events
        };
        let counted = greeted.push(
            ProtoEventView::Synchronizing { count, total: self.sync_total },
        );
        if count >= self.sync_total {
            EndpointView {
                state: ConnState::Running,
                sync_count: count,
                awaiting: false,
                round_trip_time: elapsed(now, self.last_sync_send),
                events: counted.push(ProtoEventView::Synchronized),
                last_recv_time: now,
                last_retransmit: now,
                last_quality_report: now,
                running_since: now,
                bytes_sent: 0,
                ..self
            }
        } else {
            EndpointView {
                state: ConnState::Syncing,
                sync_count: count,
                awaiting: false,
                round_trip_time: elapsed(now, self.last_sync_send),
                events: counted,
                last_recv_time: now,
                ..self
            }
        }
    }

    /// The endpoint after the peer acknowledged its inputs up to `ack`.
    pub open spec fn acknowledge(self, ack: Frame) -> EndpointView {
        EndpointView {
            pending: unacknowledged(self.pending, ack),
            last_acked_frame: if ack > self.last_acked_frame {
                ack
            } else {
                self.last_acked_frame
            },
            retransmit_interval: if ack > self.last_acked_frame {
                RETRANSMIT_INTERVAL
            } else {
                self.retransmit_interval
            },
            ..self
        }
    }

    /// The endpoint after the peer's input for `frame` came in. It is taken
    /// when it is the one that follows the last one taken; an earlier one was
    /// taken before and a later one will come again. Taken or not, it is
    /// answered with an acknowledgment, unless the message is itself a mere
    /// acknowledgment, for no frame.
    pub open spec fn accept(self, frame: Frame, bits: Seq<u8>) -> EndpointView {
        if frame == self.last_received_frame + 1 {
            EndpointView {
                last_received_frame: frame,
                ack_due: true,
                events: self.events.push(ProtoEventView::Input { frame, bits }),
                ..self
            }
        } else if frame != NULL_FRAME {
            EndpointView { ack_due: true, ..self }
        } else {
            self
        }
    }

    /// A numbered message is dropped when it comes out of turn: its number is
    /// not above the highest one taken.
    pub open spec fn stale(self, sequence: u32) -> bool {
        match self.last_processed {
            Some(highest) => sequence <= highest,
            None => false,
        }
    }

    /// A message is malformed when its input has not the length agreed on.
    /// A mere acknowledgment, for no frame, carries no input.
    pub open spec fn malformed(self, m: UdpMsgView) -> bool {
        match m {
            UdpMsgView::Input { frame, bits, .. } => bits.len() != self.input_size && !(frame
                == NULL_FRAME && bits.len() == 0),
            _ => false,
        }
    }

    /// The endpoint after the numbered message `m` came in at `now`.
    pub open spec fn on_numbered(self, m: UdpMsgView, sequence: u32, now: u64) -> EndpointView {
        if !self.exchanging() || self.malformed(m) || self.stale(sequence) {
            self
        } else {
            let a = EndpointView { last_processed: Some(sequence), ..self.heard(now) };
            match m {
                UdpMsgView::Input { frame, bits, ack_frame, .. } => a.acknowledge(ack_frame).accept(
                    frame,
                    bits,
                ),
                UdpMsgView::QualityReport { frame_advantage, .. } => (EndpointView {
                    remote_frames_behind: frame_advantage,
                    ..a
                }).post_numbered(|sequence: u32| UdpMsgView::QualityReply { sequence }, now),
                _ => a,
            }
        }
    }

    /// The endpoint after message `m` of the peer came in at `now`.
    pub open spec fn on_message(self, m: UdpMsgView, now: u64) -> EndpointView {
        if self.state == ConnState::Disconnected {
            self
        } else {
            match m {
                UdpMsgView::SyncRequest { nonce } => self.heard(now).post(
                    UdpMsgView::SyncReply { nonce },
                    now,
                ),
                UdpMsgView::SyncReply { nonce } => if self.syncing() && self.awaiting && nonce
                    == self.nonce {
                    self.sync_step(now)
                } else {
                    self
                },
                UdpMsgView::Input { sequence, .. } => self.on_numbered(m, sequence, now),
                UdpMsgView::QualityReport { sequence, .. } => self.on_numbered(m, sequence, now),
                UdpMsgView::QualityReply { sequence } => self.on_numbered(m, sequence, now),
                UdpMsgView::KeepAlive { sequence } => self.on_numbered(m, sequence, now),
            }
        }
    }

    /// The endpoint after the local input `input` was handed over at `now`.
    /// While inputs are exchanged it is kept as pending and queued; otherwise
    /// nothing happens.
    pub open spec fn send_input(self, input: GameInputView, now: u64) -> EndpointView {
        if self.exchanging() {
            (EndpointView { pending: self.pending.push(input), ..self }).post_input(input, now)
        } else {
            self
        }
    }

    /// The endpoint after each of `inputs` was handed over in turn.
    pub open spec fn send_all(self, inputs: Seq<GameInputView>, now: u64) -> EndpointView
        decreases inputs.len(),
    {
        if inputs.len() == 0 {
            self
        } else {
            self.send_all(inputs.drop_last(), now).send_input(inputs.last(), now)
        }
    }

    /// The endpoint after the session sent the peer away.
    pub open spec fn disconnect(self) -> EndpointView {
        if self.state == ConnState::Disconnected {
            self
        } else {
            self.shut()
        }
    }

    /// The endpoint after the session has simulated up to `frame`.
    pub open spec fn note_local_frame(self, frame: Frame) -> EndpointView {
        EndpointView {
            local_frames_behind: clamped_i32(self.last_received_frame - frame),
            ..self
        }
    }

    /// The statistics of the link at `now`.
    pub open spec fn stats(self, now: u64) -> Network {
        let running = elapsed(now, self.running_since);
        Network {
            send_queue_len: self.pending.len() as usize,
            recv_queue_len: 0,
            ping: if self.round_trip_time > usize::MAX {
                usize::MAX
            } else {
                self.round_trip_time as usize
            },
            kbps_sent: if running == 0 {
                0
            } else if self.bytes_sent / running > usize::MAX / 8 {
                usize::MAX
            } else {
                (self.bytes_sent / running * 8) as usize
            },
        }
    }
}

/// The values of a vector of messages.
pub open spec fn msg_views(v: Seq<UdpMsg>) -> Seq<UdpMsgView> {
    v.map_values(|m: UdpMsg| m@)
}

/// The values of a vector of events.
pub open spec fn event_views(v: Seq<ProtoEvent>) -> Seq<ProtoEventView> {
    v.map_values(|e: ProtoEvent| e@)
}

/// The values of a vector of inputs.
pub open spec fn input_views(v: Seq<GameInput>) -> Seq<GameInputView> {
    v.map_values(|i: GameInput| i@)
}

/// Queueing the pending inputs again changes nothing but the queue of
/// messages, the sequence number, the account of what was sent and whether
/// an acknowledgment is due.
pub proof fn lemma_post_pending(v: EndpointView, n: int, now: u64)
    ensures
        v.post_pending(n, now) == (EndpointView {
            outbox: v.post_pending(n, now).outbox,
            next_sequence: v.post_pending(n, now).next_sequence,
            last_send_time: v.post_pending(n, now).last_send_time,
            bytes_sent: v.post_pending(n, now).bytes_sent,
            ack_due: v.post_pending(n, now).ack_due,
            ..v
        }),
        v.post_pending(n, now).next_sequence >= v.next_sequence,
    decreases n,
{
    if n > 0 {
        lemma_post_pending(v, n - 1, now);
    }
}

/// Passing inputs on changes neither the state of the connection nor what
/// was taken from the peer, and tells the session of nothing.
pub proof fn lemma_send_all(v: EndpointView, inputs: Seq<GameInputView>, now: u64)
    ensures
        v.send_all(inputs, now).state == v.state,
        v.send_all(inputs, now).input_size == v.input_size,
        v.send_all(inputs, now).events == v.events,
        v.send_all(inputs, now).last_received_frame == v.last_received_frame,
        v.send_all(inputs, now).sync_total == v.sync_total,
        v.send_all(inputs, now).sync_count == v.sync_count,
    decreases inputs.len(),
{
    if inputs.len() > 0 {
        lemma_send_all(v, inputs.drop_last(), now);
    }
}

/// The connection to one remote peer.
pub struct Endpoint {
    state: ConnState,
    input_size: usize,
    sync_total: u32,
    sync_count: u32,
    awaiting: bool,
    nonce: u32,
    last_sync_send: u64,
    round_trip_time: u64,
    next_sequence: u32,
    last_processed: Option<u32>,
    pending: Vec<GameInput>,
    last_acked_frame: Frame,
    last_received_frame: Frame,
    ack_due: bool,
    local_frames_behind: i32,
    remote_frames_behind: i32,
    disconnect_timeout: u64,
    disconnect_notify_start: u64,
    last_recv_time: u64,
    last_send_time: u64,
    retransmit_interval: u64,
    last_retransmit: u64,
    last_quality_report: u64,
    bytes_sent: u64,
    running_since: u64,
    outbox: Vec<UdpMsg>,
    events: Vec<ProtoEvent>,
}

impl View for Endpoint {
    type V = EndpointView;

    closed spec fn view(&self) -> EndpointView {
        EndpointView {
            state: self.state,
            input_size: self.input_size as nat,
            sync_total: self.sync_total,
            sync_count: self.sync_count,
            awaiting: self.awaiting,
            nonce: self.nonce,
            last_sync_send: self.last_sync_send,
            round_trip_time: self.round_trip_time,
            next_sequence: self.next_sequence,
            last_processed: self.last_processed,
            pending: input_views(self.pending@),
            last_acked_frame: self.last_acked_frame,
            last_received_frame: self.last_received_frame,
            ack_due: self.ack_due,
            local_frames_behind: self.local_frames_behind,
            remote_frames_behind: self.remote_frames_behind,
            disconnect_timeout: self.disconnect_timeout,
            disconnect_notify_start: self.disconnect_notify_start,
            last_recv_time: self.last_recv_time,
            last_send_time: self.last_send_time,
            retransmit_interval: self.retransmit_interval,
            last_retransmit: self.last_retransmit,
            last_quality_report: self.last_quality_report,
            bytes_sent: self.bytes_sent,
            running_since: self.running_since,
            outbox: msg_views(self.outbox@),
            events: event_views(self.events@),
        }
    }
}

fn since(now: u64, then: u64) -> (ms: u64)
    ensures
        ms == elapsed(now, then),
{
    if now >= then {
        now - then
    } else {
        0
    }
}

fn add_saturating(a: u64, b: u64) -> (sum: u64)
    ensures
        sum == saturated(a + b),
{
    if a > u64::MAX - b {
        u64::MAX
    } else {
        a + b
    }
}

fn wire_size(msg: &UdpMsg) -> (n: u64)
    ensures
        n == saturated(wire_len(msg@) + UDP_HEADER_SIZE),
{
    match msg {
        UdpMsg::Input { bits, .. } => add_saturating(bits.len() as u64, 24 + UDP_HEADER_SIZE),
        UdpMsg::QualityReport { .. } => 16 + UDP_HEADER_SIZE,
        _ => 8 + UDP_HEADER_SIZE,
    }
}

impl Endpoint {
    /// Holds of every endpoint that this module hands out.
    pub open spec fn wf(&self) -> bool {
        self@.wf()
    }

    /// An endpoint of which nothing has been heard, for inputs of
    /// `input_size` bytes and a handshake of `sync_round_trips` round trips.
    /// A handshake of no round trip is refused.
    pub fn new(
        input_size: usize,
        sync_round_trips: u32,
        disconnect_timeout: u64,
        disconnect_notify_start: u64,
    ) -> (made: Result<Endpoint, GGPOError>)
        ensures
            made.is_ok() <==> sync_round_trips >= 1,
            made.is_err() ==> made == Err::<Endpoint, GGPOError>(GGPOError::InvalidRequest),
            made.is_ok() ==> made.unwrap().wf() && made.unwrap()@ == (EndpointView {
                state: ConnState::Initializing,
                input_size: input_size as nat,
                sync_total: sync_round_trips,
                sync_count: 0,
                awaiting: false,
                nonce: 0,
                last_sync_send: 0,
                round_trip_time: 0,
                next_sequence: 0,
                last_processed: None,
                pending: Seq::empty(),
                last_acked_frame: NULL_FRAME,
                last_received_frame: NULL_FRAME,
                ack_due: false,
                local_frames_behind: 0,
                remote_frames_behind: 0,
                disconnect_timeout,
                disconnect_notify_start,
                last_recv_time: 0,
                last_send_time: 0,
                retransmit_interval: RETRANSMIT_INTERVAL,
                last_retransmit: 0,
                last_quality_report: 0,
                bytes_sent: 0,
                running_since: 0,
                outbox: Seq::empty(),
                events: Seq::empty(),
            }),
    {
        if sync_round_trips < 1 {
            return Err(GGPOError::InvalidRequest);
        }
        let made = Endpoint {
            state: ConnState::Initializing,
            input_size,
            sync_total: sync_round_trips,
            sync_count: 0,
            awaiting: false,
            nonce: 0,
            last_sync_send: 0,
            round_trip_time: 0,
            next_sequence: 0,
            last_processed: None,
            pending: Vec::new(),
            last_acked_frame: NULL_FRAME,
            last_received_frame: NULL_FRAME,
            ack_due: false,
            local_frames_behind: 0,
            remote_frames_behind: 0,
            disconnect_timeout,
            disconnect_notify_start,
            last_recv_time: 0,
            last_send_time: 0,
            retransmit_interval: RETRANSMIT_INTERVAL,
            last_retransmit: 0,
            last_quality_report: 0,
            bytes_sent: 0,
            running_since: 0,
            outbox: Vec::new(),
            events: Vec::new(),
        };
        proof {
            assert(made@.pending =~= Seq::empty());
            assert(made@.outbox =~= Seq::empty());
            assert(made@.events =~= Seq::empty());
        }
        Ok(made)
    }

    /// The state of the connection.
    pub fn state(&self) -> (state: ConnState)
        ensures
            state == self@.state,
    {
        self.state
    }

    /// Whether the handshake is done and the peer was not given up.
    pub fn is_synchronized(&self) -> (yes: bool)
        ensures
            yes == self@.exchanging(),
    {
        self.state == ConnState::Running || self.state == ConnState::Interrupted
    }

    /// The highest frame of the peer's input that was taken.
    pub fn last_received_frame(&self) -> (frame: Frame)
        ensures
            frame == self@.last_received_frame,
    {
        self.last_received_frame
    }

    /// The highest local frame that the peer has acknowledged.
    pub fn last_acked_frame(&self) -> (frame: Frame)
        ensures
            frame == self@.last_acked_frame,
    {
        self.last_acked_frame
    }

    /// The time that the last measured round trip took, in milliseconds.
    pub fn round_trip_time(&self) -> (ms: u64)
        ensures
            ms == self@.round_trip_time,
    {
        self.round_trip_time
    }

    /// By how many frames this side believes to lag behind the peer.
    pub fn local_frames_behind(&self) -> (frames: i32)
        ensures
            frames == self@.local_frames_behind,
    {
        self.local_frames_behind
    }

    /// By how many frames the peer believes to lag behind this side.
    pub fn remote_frames_behind(&self) -> (frames: i32)
        ensures
            frames == self@.remote_frames_behind,
    {
        self.remote_frames_behind
    }

    /// The number of local inputs that the peer has not acknowledged.
    pub fn pending_len(&self) -> (n: usize)
        ensures
            n == self@.pending.len(),
    {
        self.pending.len()
    }

    /// Sets after how many silent milliseconds the peer is given up.
    pub fn set_disconnect_timeout(&mut self, timeout: u64)
        ensures
            final(self)@ == (EndpointView { disconnect_timeout: timeout, ..old(self)@ }),
    {
        self.disconnect_timeout = timeout;
    }

    /// Sets after how many silent milliseconds the peer is reported as
    /// interrupted.
    pub fn set_disconnect_notify_start(&mut self, timeout: u64)
        ensures
            final(self)@ == (EndpointView { disconnect_notify_start: timeout, ..old(self)@ }),
    {
        self.disconnect_notify_start = timeout;
    }

    /// Hands over the messages that wait to be sent, oldest first.
    pub fn take_outbox(&mut self) -> (out: Vec<UdpMsg>)
        ensures
            msg_views(out@) == old(self)@.outbox,
            final(self)@ == (EndpointView { outbox: Seq::empty(), ..old(self)@ }),
    {
        let mut out: Vec<UdpMsg> = Vec::new();
        std::mem::swap(&mut out, &mut self.outbox);
        assert(self@.outbox =~= Seq::empty());
        out
    }

    /// Hands over the events that wait to be fetched, oldest first.
    pub fn take_events(&mut self) -> (out: Vec<ProtoEvent>)
        ensures
            event_views(out@) == old(self)@.events,
            final(self)@ == (EndpointView { events: Seq::empty(), ..old(self)@ }),
    {
        let mut out: Vec<ProtoEvent> = Vec::new();
        std::mem::swap(&mut out, &mut self.events);
        assert(self@.events =~= Seq::empty());
        out
    }

    /// The statistics of the link at `now`.
    pub fn stats(&self, now: u64) -> (stats: Network)
        ensures
            stats == self@.stats(now),
    {
        let running = since(now, self.running_since);
        let ping: usize = if self.round_trip_time > usize::MAX as u64 {
            usize::MAX
        } else {
            self.round_trip_time as usize
        };
        let kbps_sent: usize = if running == 0 {
            0
        } else if self.bytes_sent / running > (usize::MAX / 8) as u64 {
            usize::MAX
        } else {
            (self.bytes_sent / running * 8) as usize
        };
        Network { send_queue_len: self.pending.len(), recv_queue_len: 0, ping, kbps_sent }
    }

    /// Records how far the session has simulated, to measure how far this
    /// side lags behind the peer.
    pub fn note_local_frame(&mut self, frame: Frame)
        ensures
            final(self)@ == old(self)@.note_local_frame(frame),
    {
        let gap: i64 = self.last_received_frame as i64 - frame as i64;
        self.local_frames_behind = if gap > i32::MAX as i64 {
            i32::MAX
        } else if gap < i32::MIN as i64 {
            i32::MIN
        } else {
            gap as i32
        };
    }

    fn push_event(&mut self, event: ProtoEvent)
        ensures
            final(self)@ == (EndpointView {
                events: old(self)@.events.push(event@),
                ..old(self)@
            }),
    {
        self.events.push(event);
        assert(self@.events =~= old(self)@.events.push(event@));
    }

    fn post(&mut self, msg: UdpMsg, now: u64)
        ensures
            final(self)@ == old(self)@.post(msg@, now),
    {
        let size = wire_size(&msg);
        self.bytes_sent = add_saturating(self.bytes_sent, size);
        self.last_send_time = now;
        self.outbox.push(msg);
        assert(self@.outbox =~= old(self)@.outbox.push(msg@));
    }

    fn post_input(&mut self, input: &GameInput, now: u64)
        ensures
            final(self)@ == old(self)@.post_input(input@, now),
    {
        self.ack_due = false;
        if self.next_sequence < u32::MAX {
            let sequence = self.next_sequence;
            self.next_sequence = sequence + 1;
            let msg = UdpMsg::Input {
                frame: input.frame,
                bits: crate::game_input::copy_bits(&input.bits),
                ack_frame: self.last_received_frame,
                sequence,
            };
            self.post(msg, now);
        }
    }

    fn post_ack(&mut self, now: u64)
        ensures
            final(self)@ == old(self)@.post_ack(now),
    {
        if self.ack_due {
            let bare = GameInput { frame: NULL_FRAME, bits: Vec::new() };
            assert(bare@.bits =~= Seq::<u8>::empty());
            self.post_input(&bare, now);
        }
    }

    fn post_quality_report(&mut self, now: u64)
        ensures
            final(self)@ == old(self)@.report_quality(now),
    {
        if since(now, self.last_quality_report) >= QUALITY_REPORT_INTERVAL {
            self.last_quality_report = now;
            if self.next_sequence < u32::MAX {
                let sequence = self.next_sequence;
                self.next_sequence = sequence + 1;
                let ping: u32 = if self.round_trip_time > u32::MAX as u64 {
                    u32::MAX
                } else {
                    self.round_trip_time as u32
                };
                let msg = UdpMsg::QualityReport {
                    frame_advantage: self.local_frames_behind,
                    ping,
                    sequence,
                };
                self.post(msg, now);
            }
        }
    }

    fn post_quality_reply(&mut self, now: u64)
        ensures
            final(self)@ == old(self)@.post_numbered(
                |sequence: u32| UdpMsgView::QualityReply { sequence },
                now,
            ),
    {
        if self.next_sequence < u32::MAX {
            let sequence = self.next_sequence;
            self.next_sequence = sequence + 1;
            self.post(UdpMsg::QualityReply { sequence }, now);
        }
    }

    fn post_keep_alive(&mut self, now: u64)
        ensures
            final(self)@ == old(self)@.keep_alive(now),
    {
        if since(now, self.last_send_time) >= KEEP_ALIVE_INTERVAL {
            if self.next_sequence < u32::MAX {
                let sequence = self.next_sequence;
                self.next_sequence = sequence + 1;
                self.post(UdpMsg::KeepAlive { sequence }, now);
            }
        }
    }

    fn shut(&mut self)
        ensures
            final(self)@ == old(self)@.shut(),
    {
        self.state = ConnState::Disconnected;
        self.pending = Vec::new();
        self.outbox = Vec::new();
        self.push_event(ProtoEvent::Disconnected);
        assert(self@.pending =~= Seq::empty());
        assert(self@.outbox =~= Seq::empty());
    }

    fn watch(&mut self, now: u64)
        ensures
            final(self)@ == old(self)@.watch(now),
    {
        let idle = since(now, self.last_recv_time);
        if self.state == ConnState::Running && idle > self.disconnect_notify_start {
            self.state = ConnState::Interrupted;
            let rest = since(self.disconnect_timeout, self.disconnect_notify_start);
            self.push_event(ProtoEvent::NetworkInterrupted { disconnect_timeout: rest });
        }
        if self.state == ConnState::Interrupted && idle >= self.disconnect_timeout {
            self.shut();
        }
    }

    fn resend(&mut self, now: u64)
        ensures
            final(self)@ == old(self)@.resend(now),
    {
        if self.pending.len() > 0 && since(now, self.last_retransmit) >= self.retransmit_interval {
            let doubled = add_saturating(self.retransmit_interval, self.retransmit_interval);
            let next = if doubled > self.disconnect_timeout {
                self.disconnect_timeout
            } else {
                doubled
            };
            let mut k: usize = 0;
            while k < self.pending.len()
                invariant
                    k <= self.pending.len(),
                    self.pending@.len() == old(self)@.pending.len(),
                    self@.pending == old(self)@.pending,
                    self@ == old(self)@.post_pending(k as int, now),
                decreases self.pending.len() - k,
            {
                let input = self.pending[k].duplicate();
                assert(input@ == self@.pending[k as int]);
                self.post_input(&input, now);
                proof {
                    lemma_post_pending(old(self)@, k + 1, now);
                    assert(self@.pending.len() == self.pending@.len());
                }
                k += 1;
            }
            self.last_retransmit = now;
            self.retransmit_interval = next;
        }
    }
}

impl Endpoint {
    /// Drives the connection at the tick of the session. `now` is the time
    /// in milliseconds, `nonce` a number drawn at random for this tick.
    ///
    /// During the handshake a probe is sent when none is out, and again when
    /// the one that is out has gone unanswered for `SYNC_RETRY_INTERVAL`.
    /// While inputs are exchanged the silence of the peer is measured first
    /// (see [`EndpointView::watch`]); unless the peer was given up, pending
    /// inputs are sent again when their interval has passed, an
    /// acknowledgment is sent if one is due, a quality report is sent once
    /// every `QUALITY_REPORT_INTERVAL`, and a keep-alive if nothing was sent
    /// for `KEEP_ALIVE_INTERVAL`.
    pub fn poll(&mut self, now: u64, nonce: u32)
        requires
            old(self).wf(),
        ensures
            final(self).wf(),
            final(self)@ == old(self)@.poll(now, nonce),
    {
        proof {
            lemma_steps(old(self)@, arbitrary(), arbitrary(), 0, now, nonce);
        }
        match self.state {
            ConnState::Disconnected => {},
            ConnState::Initializing | ConnState::Syncing => {
                if !self.awaiting || since(now, self.last_sync_send) >= SYNC_RETRY_INTERVAL {
                    self.awaiting = true;
                    self.nonce = nonce;
                    self.last_sync_send = now;
                    self.post(UdpMsg::SyncRequest { nonce }, now);
                }
            },
            ConnState::Running | ConnState::Interrupted => {
                self.watch(now);
                if self.state != ConnState::Disconnected {
                    self.resend(now);
                    proof {
                        lemma_post_pending(
                            old(self)@.watch(now),
                            old(self)@.watch(now).pending.len() as int,
                            now,
                        );
                    }
                    self.post_ack(now);
                    self.post_quality_report(now);
                    self.post_keep_alive(now);
                }
            },
        }
    }

    fn heard(&mut self, now: u64)
        ensures
            final(self)@ == old(self)@.heard(now),
    {
        self.last_recv_time = now;
        if self.state == ConnState::Interrupted {
            self.state = ConnState::Running;
            self.push_event(ProtoEvent::NetworkResumed);
        }
    }

    fn sync_step(&mut self, now: u64)
        requires
            old(self).wf(),
            old(self)@.syncing(),
        ensures
            final(self)@ == old(self)@.sync_step(now),
    {
        let count = self.sync_count + 1;
        if self.state == ConnState::Initializing {
            self.push_event(ProtoEvent::Connected);
        }
        self.push_event(ProtoEvent::Synchronizing { count, total: self.sync_total });
        self.sync_count = count;
        self.awaiting = false;
        self.round_trip_time = since(now, self.last_sync_send);
        self.last_recv_time = now;
        if count >= self.sync_total {
            self.state = ConnState::Running;
            self.push_event(ProtoEvent::Synchronized);
            self.last_retransmit = now;
            self.last_quality_report = now;
            self.running_since = now;
            self.bytes_sent = 0;
        } else {
            self.state = ConnState::Syncing;
        }
    }

    fn acknowledge(&mut self, ack: Frame)
        ensures
            final(self)@ == old(self)@.acknowledge(ack),
    {
        let mut kept: Vec<GameInput> = Vec::new();
        let mut i: usize = 0;
        while i < self.pending.len()
            invariant
                i <= self.pending.len(),
                input_views(kept@) == unacknowledged(
                    input_views(self.pending@).subrange(0, i as int),
                    ack,
                ),
            decreases self.pending.len() - i,
        {
            proof {
                let all = input_views(self.pending@);
                assert(all.subrange(0, i + 1).drop_last() =~= all.subrange(0, i as int));
                assert(all.subrange(0, i + 1).last() == self.pending@[i as int]@);
            }
            if self.pending[i].frame > ack {
                let input = self.pending[i].duplicate();
                kept.push(input);
                assert(input_views(kept@) =~= unacknowledged(
                    input_views(self.pending@).subrange(0, i as int),
                    ack,
                ).push(input@));
            }
            i += 1;
        }
        proof {
            let all = input_views(self.pending@);
            assert(all.subrange(0, all.len() as int) =~= all);
        }
        self.pending = kept;
        if ack > self.last_acked_frame {
            self.last_acked_frame = ack;
            self.retransmit_interval = RETRANSMIT_INTERVAL;
        }
    }

    fn accept(&mut self, frame: Frame, bits: Vec<u8>)
        ensures
            final(self)@ == old(self)@.accept(frame, bits@),
    {
        if frame as i64 == self.last_received_frame as i64 + 1 {
            self.last_received_frame = frame;
            self.ack_due = true;
            self.push_event(ProtoEvent::Input { frame, bits });
        } else if frame != NULL_FRAME {
            self.ack_due = true;
        }
    }

    fn is_stale(&self, sequence: u32) -> (yes: bool)
        ensures
            yes == self@.stale(sequence),
    {
        match self.last_processed {
            Some(highest) => sequence <= highest,
            None => false,
        }
    }

    /// Takes a message that arrived from the peer at `now`.
    ///
    /// An endpoint that was given up takes nothing. A handshake probe is
    /// answered with its nonce. The answer to the probe that is out counts
    /// as one round trip of the handshake; any other answer is dropped. A
    /// numbered message is taken only while inputs are exchanged, and is
    /// dropped when its number is not above the highest one taken or when
    /// its input has not the length agreed on. Of an input message the
    /// acknowledgment releases the pending inputs up to the acknowledged
    /// frame, and the input is passed on to the session if it is the one
    /// that follows the last one taken; the next tick acknowledges it. A
    /// quality report is answered.
    pub fn on_message(&mut self, msg: UdpMsg, now: u64)
        requires
            old(self).wf(),
        ensures
            final(self).wf(),
            final(self)@ == old(self)@.on_message(msg@, now),
    {
        proof {
            lemma_steps(old(self)@, msg@, arbitrary(), 0, now, 0);
        }
        if self.state == ConnState::Disconnected {
            return ;
        }
        let exchanging = self.is_synchronized();
        match msg {
            UdpMsg::SyncRequest { nonce } => {
                self.heard(now);
                self.post(UdpMsg::SyncReply { nonce }, now);
            },
            UdpMsg::SyncReply { nonce } => {
                if !exchanging && self.awaiting && nonce == self.nonce {
                    self.sync_step(now);
                }
            },
            UdpMsg::Input { frame, bits, ack_frame, sequence } => {
                let fits = bits.len() == self.input_size || (frame == NULL_FRAME && bits.len()
                    == 0);
                if exchanging && fits && !self.is_stale(sequence) {
                    self.heard(now);
                    self.last_processed = Some(sequence);
                    self.acknowledge(ack_frame);
                    self.accept(frame, bits);
                }
            },
            UdpMsg::QualityReport { frame_advantage, ping, sequence } => {
                if exchanging && !self.is_stale(sequence) {
                    self.heard(now);
                    self.last_processed = Some(sequence);
                    self.remote_frames_behind = frame_advantage;
                    self.post_quality_reply(now);
                }
            },
            UdpMsg::QualityReply { sequence } => {
                if exchanging && !self.is_stale(sequence) {
                    self.heard(now);
                    self.last_processed = Some(sequence);
                }
            },
            UdpMsg::KeepAlive { sequence } => {
                if exchanging && !self.is_stale(sequence) {
                    self.heard(now);
                    self.last_processed = Some(sequence);
                }
            },
        }
    }

    /// Passes a local input on to the peer. While inputs are exchanged the
    /// input is queued for the peer and kept until the peer acknowledges its
    /// frame; before the handshake is done, and once the peer was given up,
    /// nothing happens.
    pub fn send_input(&mut self, input: &GameInput, now: u64)
        requires
            old(self).wf(),
        ensures
            final(self).wf(),
            final(self)@ == old(self)@.send_input(input@, now),
    {
        proof {
            lemma_steps(old(self)@, arbitrary(), input@, 0, now, 0);
        }
        if self.is_synchronized() {
            let kept = input.duplicate();
            self.pending.push(kept);
            assert(self@.pending =~= old(self)@.pending.push(input@));
            self.post_input(input, now);
        }
    }

    /// Passes local inputs on to the peer, in their order.
    pub fn send_inputs(&mut self, inputs: &Vec<GameInput>, now: u64)
        requires
            old(self).wf(),
        ensures
            final(self).wf(),
            final(self)@ == old(self)@.send_all(input_views(inputs@), now),
    {
        let mut k: usize = 0;
        while k < inputs.len()
            invariant
                k <= inputs.len(),
                self.wf(),
                self@ == old(self)@.send_all(input_views(inputs@).subrange(0, k as int), now),
            decreases inputs.len() - k,
        {
            proof {
                let all = input_views(inputs@);
                assert(all.subrange(0, k + 1).drop_last() =~= all.subrange(0, k as int));
                assert(all.subrange(0, k + 1).last() == inputs@[k as int]@);
            }
            self.send_input(&inputs[k], now);
            k += 1;
        }
        proof {
            let all = input_views(inputs@);
            assert(all.subrange(0, all.len() as int) =~= all);
        }
    }

    /// Sends the peer away: the connection is given up, nothing is pending
    /// any more and the session is told. A second call does nothing.
    pub fn disconnect(&mut self)
        requires
            old(self).wf(),
        ensures
            final(self).wf(),
            final(self)@ == old(self)@.disconnect(),
    {
        proof {
            lemma_steps(old(self)@, arbitrary(), arbitrary(), 0, 0, 0);
        }
        if self.state != ConnState::Disconnected {
            self.shut();
        }
    }
}

/// How many times `events` tells of an interrupted connection.
pub open spec fn interruptions(events: Seq<ProtoEventView>) -> nat
    decreases events.len(),
{
    if events.len() == 0 {
        0
    } else {
        interruptions(events.drop_last()) + if events.last() is NetworkInterrupted {
            1nat
        } else {
            0nat
        }
    }
}

/// How many times `events` tells of a peer given up.
pub open spec fn disconnections(events: Seq<ProtoEventView>) -> nat
    decreases events.len(),
{
    if events.len() == 0 {
        0
    } else {
        disconnections(events.drop_last()) + if events.last() is Disconnected {
            1nat
        } else {
            0nat
        }
    }
}

impl EndpointView {
    /// The endpoint after a tick at each of `times` in turn, with nothing
    /// heard from the peer in between.
    pub open spec fn polls(self, times: Seq<u64>, nonces: Seq<u32>) -> EndpointView
        decreases times.len(),
    {
        if times.len() == 0 {
            self
        } else {
            self.polls(times.drop_last(), nonces.drop_last()).poll(times.last(), nonces.last())
        }
    }

    /// The state in which a connection that was running when the peer fell
    /// silent is found after `idle` milliseconds of silence. A peer is given
    /// up only once it was reported as interrupted: where
    /// `disconnect_notify_start` is set above `disconnect_timeout`, both
    /// happen at the tick that finds the peer silent for more than
    /// `disconnect_notify_start`.
    pub open spec fn state_after_silence(self, idle: u64) -> ConnState {
        if idle >= self.disconnect_timeout && idle > self.disconnect_notify_start {
            ConnState::Disconnected
        } else if idle > self.disconnect_notify_start {
            ConnState::Interrupted
        } else {
            ConnState::Running
        }
    }
}

/// How many of `events` hand an input of the peer to the session.
pub open spec fn inputs_told(events: Seq<ProtoEventView>) -> nat
    decreases events.len(),
{
    if events.len() == 0 {
        0
    } else {
        inputs_told(events.drop_last()) + if events.last() is Input {
            1nat
        } else {
            0nat
        }
    }
}

/// The inputs that `events` hand to the session are those of the frames up
/// to `last`, one for each frame and in the order of the frames, each of
/// `size` bytes; and none follows the news that the peer was given up.
pub open spec fn inputs_in_order(events: Seq<ProtoEventView>, last: int, size: nat) -> bool
    decreases events.len(),
{
    if events.len() == 0 {
        true
    } else {
        match events.last() {
            ProtoEventView::Input { frame, bits } => frame == last && bits.len() == size
                && disconnections(events.drop_last()) == 0 && inputs_in_order(
                events.drop_last(),
                last - 1,
                size,
            ),
            _ => inputs_in_order(events.drop_last(), last, size),
        }
    }
}

proof fn lemma_input_push(events: Seq<ProtoEventView>, e: ProtoEventView, last: int, size: nat)
    ensures
        inputs_told(events.push(e)) == inputs_told(events) + if e is Input {
            1nat
        } else {
            0nat
        },
        inputs_in_order(events.push(e), last, size) == match e {
            ProtoEventView::Input { frame, bits } => frame == last && bits.len() == size
                && disconnections(events) == 0 && inputs_in_order(events, last - 1, size),
            _ => inputs_in_order(events, last, size),
        },
{
    assert(events.push(e).drop_last() =~= events);
}

proof fn lemma_count_push(events: Seq<ProtoEventView>, e: ProtoEventView)
    ensures
        interruptions(events.push(e)) == interruptions(events) + if e is NetworkInterrupted {
            1nat
        } else {
            0nat
        },
        disconnections(events.push(e)) == disconnections(events) + if e is Disconnected {
            1nat
        } else {
            0nat
        },
{
    assert(events.push(e).drop_last() =~= events);
}

/// A tick changes neither what was heard from the peer nor the settings,
/// and tells the session of nothing but an interruption or a disconnect.
proof fn lemma_poll_running(v: EndpointView, now: u64)
    requires
        v.exchanging(),
    ensures
        ({
            let w = v.watch(now);
            let end = v.poll_running(now);
            &&& end.state == w.state
            &&& end.events == w.events
            &&& end.last_recv_time == v.last_recv_time
            &&& end.disconnect_timeout == v.disconnect_timeout
            &&& end.disconnect_notify_start == v.disconnect_notify_start
            &&& end.last_received_frame == v.last_received_frame
            &&& end.sync_total == v.sync_total
            &&& end.sync_count == v.sync_count
            &&& end.input_size == v.input_size
            &&& end.next_sequence >= v.next_sequence
        }),
{
    let w = v.watch(now);
    lemma_post_pending(w, w.pending.len() as int, now);
}

/// Whatever happens to an endpoint, its invariant holds afterwards, its
/// settings are as they were, a connection that was given up stays so, and
/// one that is given up has told the session.
pub proof fn lemma_steps(
    v: EndpointView,
    m: UdpMsgView,
    input: GameInputView,
    frame: Frame,
    now: u64,
    nonce: u32,
)
    requires
        v.wf(),
    ensures
        v.poll(now, nonce).wf(),
        v.leads_to(v.poll(now, nonce)),
        v.on_message(m, now).wf(),
        v.leads_to(v.on_message(m, now)),
        v.send_input(input, now).wf(),
        v.leads_to(v.send_input(input, now)),
        v.note_local_frame(frame).wf(),
        v.leads_to(v.note_local_frame(frame)),
        v.disconnect().wf(),
        v.leads_to(v.disconnect()),
        (EndpointView { events: Seq::empty(), ..v }).wf(),
        (EndpointView { outbox: Seq::empty(), ..v }).wf(),
{
    let last = v.last_received_frame as int;
    let size = v.input_size;
    lemma_count_push(v.events, ProtoEventView::Disconnected);
    lemma_input_push(v.events, ProtoEventView::Disconnected, last, size);
    if v.exchanging() {
        lemma_poll_running(v, now);
        let told = ProtoEventView::NetworkInterrupted {
            disconnect_timeout: elapsed(v.disconnect_timeout, v.disconnect_notify_start),
        };
        lemma_count_push(v.events, told);
        lemma_input_push(v.events, told, last, size);
        lemma_count_push(v.events.push(told), ProtoEventView::Disconnected);
        lemma_input_push(v.events.push(told), ProtoEventView::Disconnected, last, size);
        let a = v.heard(now);
        lemma_count_push(v.events, ProtoEventView::NetworkResumed);
        lemma_input_push(v.events, ProtoEventView::NetworkResumed, last, size);
        match m {
            UdpMsgView::Input { frame: f, bits, .. } => {
                lemma_count_push(a.events, ProtoEventView::Input { frame: f, bits });
                lemma_input_push(a.events, ProtoEventView::Input { frame: f, bits }, f as int, size);
            },
            _ => {},
        }
    } else if v.syncing() {
        let count = (v.sync_count + 1) as u32;
        lemma_count_push(v.events, ProtoEventView::Connected);
        lemma_input_push(v.events, ProtoEventView::Connected, last, size);
        let greeted = if v.state == ConnState::Initializing {
            v.events.push(ProtoEventView::Connected)
        } else {
            v.events
        };
        let counting = ProtoEventView::Synchronizing { count, total: v.sync_total };
        lemma_count_push(greeted, counting);
        lemma_input_push(greeted, counting, last, size);
        lemma_count_push(greeted.push(counting), ProtoEventView::Synchronized);
        lemma_input_push(greeted.push(counting), ProtoEventView::Synchronized, last, size);
    }
}

/// Passing inputs on keeps the invariant and the settings of an endpoint.
pub proof fn lemma_send_all_steps(v: EndpointView, inputs: Seq<GameInputView>, now: u64)
    requires
        v.wf(),
    ensures
        v.send_all(inputs, now).wf(),
        v.leads_to(v.send_all(inputs, now)),
    decreases inputs.len(),
{
    if inputs.len() > 0 {
        lemma_send_all_steps(v, inputs.drop_last(), now);
        lemma_steps(v.send_all(inputs.drop_last(), now), arbitrary(), inputs.last(), 0, now, 0);
    }
}

/// A peer that falls silent while the connection runs is reported as
/// interrupted once, when a tick finds it silent for more than
/// `disconnect_notify_start`, and is given up once, when a tick finds it
/// silent for `disconnect_timeout` or more (and, where that is set lower,
/// for more than `disconnect_notify_start`); whatever the number of ticks and
/// however they are spaced.
pub proof fn lemma_silent_peer(v: EndpointView, times: Seq<u64>, nonces: Seq<u32>)
    requires
        v.wf(),
        v.state == ConnState::Running,
        times.len() == nonces.len(),
        times.len() > 0,
        forall|i: int, j: int| 0 <= i <= j < times.len() ==> times[i] <= times[j],
    ensures
        ({
            let end = v.polls(times, nonces);
            let idle = elapsed(times.last(), v.last_recv_time);
            &&& end.state == v.state_after_silence(idle)
            &&& interruptions(end.events) == interruptions(v.events) + if idle
                > v.disconnect_notify_start {
                1nat
            } else {
                0nat
            }
            &&& disconnections(end.events) == disconnections(v.events) + if idle
                >= v.disconnect_timeout && idle > v.disconnect_notify_start {
                1nat
            } else {
                0nat
            }
            &&& end.last_recv_time == v.last_recv_time
            &&& end.disconnect_timeout == v.disconnect_timeout
            &&& end.disconnect_notify_start == v.disconnect_notify_start
        }),
    decreases times.len(),
{
    let head_times = times.drop_last();
    let head_nonces = nonces.drop_last();
    let now = times.last();
    let mid = v.polls(head_times, head_nonces);
    if head_times.len() > 0 {
        assert forall|i: int, j: int| 0 <= i <= j < head_times.len() implies head_times[i]
            <= head_times[j] by {
            assert(head_times[i] == times[i] && head_times[j] == times[j]);
        }
        lemma_silent_peer(v, head_times, head_nonces);
        assert(head_times.last() == times[times.len() - 2]);
        assert(head_times.last() <= now);
    }
    if mid.exchanging() {
        lemma_poll_running(mid, now);
        let idle = elapsed(now, mid.last_recv_time);
        if mid.state == ConnState::Running && idle > mid.disconnect_notify_start {
            let told = ProtoEventView::NetworkInterrupted {
                disconnect_timeout: elapsed(mid.disconnect_timeout, mid.disconnect_notify_start),
            };
            lemma_count_push(mid.events, told);
            if idle >= mid.disconnect_timeout {
                lemma_count_push(mid.events.push(told), ProtoEventView::Disconnected);
            }
        } else if mid.state == ConnState::Interrupted && idle >= mid.disconnect_timeout {
            lemma_count_push(mid.events, ProtoEventView::Disconnected);
        }
    }
}

/// Nothing that happens to an endpoint changes the length of the inputs that
/// it exchanges.
pub proof fn lemma_input_size_kept(
    v: EndpointView,
    m: UdpMsgView,
    frame: Frame,
    now: u64,
    nonce: u32,
)
    ensures
        v.poll(now, nonce).input_size == v.input_size,
        v.on_message(m, now).input_size == v.input_size,
        v.disconnect().input_size == v.input_size,
        v.note_local_frame(frame).input_size == v.input_size,
        v.note_local_frame(frame).wf() == v.wf(),
{
    let w = v.watch(now);
    lemma_post_pending(w, w.pending.len() as int, now);
}

/// The highest frame taken from the peer never goes down, whatever happens
/// to the endpoint.
pub proof fn lemma_received_never_decreases(
    v: EndpointView,
    m: UdpMsgView,
    input: GameInputView,
    frame: Frame,
    now: u64,
    nonce: u32,
)
    requires
        v.wf(),
    ensures
        v.poll(now, nonce).last_received_frame == v.last_received_frame,
        v.on_message(m, now).last_received_frame >= v.last_received_frame,
        v.send_input(input, now).last_received_frame == v.last_received_frame,
        v.disconnect().last_received_frame == v.last_received_frame,
        v.note_local_frame(frame).last_received_frame == v.last_received_frame,
{
    if v.exchanging() {
        lemma_poll_running(v, now);
    }
}

/// A numbered message that arrives a second time, or after a later one, is
/// dropped: taking it again leaves the endpoint as the first time left it.
pub proof fn lemma_duplicate_is_dropped(v: EndpointView, m: UdpMsgView, now: u64, later: u64)
    requires
        v.wf(),
        sequence_of(m).is_some(),
    ensures
        v.on_message(m, now).on_message(m, later) == v.on_message(m, now),
        v.exchanging() && v.stale(sequence_of(m).unwrap()) ==> v.on_message(m, now) == v,
{
    let sequence = sequence_of(m).unwrap();
    let once = v.on_message(m, now);
    if v.exchanging() && !v.malformed(m) && !v.stale(sequence) {
        assert(once.last_processed == Some(sequence));
        assert(once.stale(sequence));
        assert(once.state != ConnState::Disconnected);
    }
}

/// Numbered messages are taken in the order of their numbers: the highest
/// number taken never goes down, and a message that is taken carries a
/// number above every number taken before.
pub proof fn lemma_taken_in_order(v: EndpointView, m: UdpMsgView, now: u64)
    requires
        v.wf(),
        sequence_of(m).is_some(),
    ensures
        ({
            let sequence = sequence_of(m).unwrap();
            let next = v.on_message(m, now);
            let taken = v.exchanging() && !v.malformed(m) && !v.stale(sequence);
            &&& taken ==> next.last_processed == Some(sequence)
            &&& !taken ==> next == v
            &&& match v.last_processed {
                Some(highest) => next.last_processed.is_some() && next.last_processed.unwrap()
                    >= highest && (taken ==> sequence > highest),
                None => true,
            }
        }),
{
}

/// The messages that an endpoint queues carry sequence numbers that grow:
/// a numbered message queued now carries the next number, and any queued
/// later carries a higher one.
pub proof fn lemma_sequence_grows(v: EndpointView, make: spec_fn(u32) -> UdpMsgView, now: u64)
    requires
        forall|n: u32| sequence_of(#[trigger] make(n)) == Some(n),
        v.next_sequence < u32::MAX,
    ensures
        v.post_numbered(make, now).outbox.len() == v.outbox.len() + 1,
        sequence_of(v.post_numbered(make, now).outbox.last()) == Some(v.next_sequence),
        v.post_numbered(make, now).next_sequence > v.next_sequence,
{
}

impl EndpointView {
    /// The endpoint after one round trip of the handshake: a tick at `now`,
    /// and the peer's answer to the probe that is out, which arrives at
    /// `later`.
    pub open spec fn round_trip(self, now: u64, nonce: u32, later: u64) -> EndpointView {
        let probed = self.poll(now, nonce);
        probed.on_message(UdpMsgView::SyncReply { nonce: probed.nonce }, later)
    }

    /// The endpoint after the round trips `rounds`, each given by the time
    /// of the tick, the nonce of the tick and the time of the answer.
    pub open spec fn round_trips(self, rounds: Seq<(u64, u32, u64)>) -> EndpointView
        decreases rounds.len(),
    {
        if rounds.len() == 0 {
            self
        } else {
            self.round_trips(rounds.drop_last()).round_trip(
                rounds.last().0,
                rounds.last().1,
                rounds.last().2,
            )
        }
    }

    /// The endpoint with nothing waiting in its queues.
    pub open spec fn drained(self) -> EndpointView {
        EndpointView { outbox: Seq::empty(), events: Seq::empty(), ..self }
    }

    /// The endpoint after ticks of the session at each of `times` in turn,
    /// with nothing heard from the peer: at every tick the session notes its
    /// frame, drives the connection and fetches what waits in the queues.
    pub open spec fn silent_ticks(self, times: Seq<u64>, nonces: Seq<u32>, frames: Seq<Frame>) -> EndpointView
        decreases times.len(),
    {
        if times.len() == 0 {
            self
        } else {
            self.silent_ticks(
                times.drop_last(),
                nonces.drop_last(),
                frames.drop_last(),
            ).note_local_frame(frames.last()).poll(times.last(), nonces.last()).drained()
        }
    }

    /// The events that the session fetched over the ticks of
    /// [`EndpointView::silent_ticks`], in their order.
    pub open spec fn told_in_silence(self, times: Seq<u64>, nonces: Seq<u32>, frames: Seq<Frame>) -> Seq<
        ProtoEventView,
    >
        decreases times.len(),
    {
        if times.len() == 0 {
            Seq::empty()
        } else {
            self.told_in_silence(times.drop_last(), nonces.drop_last(), frames.drop_last())
                + self.silent_ticks(
                times.drop_last(),
                nonces.drop_last(),
                frames.drop_last(),
            ).note_local_frame(frames.last()).poll(times.last(), nonces.last()).events
        }
    }
}

/// What the session is told in one round trip of the handshake that ends
/// with `count` round trips done: that the peer is there, if this is the
/// first answer; the count; and that the handshake is done, if it is.
pub open spec fn round_events(greet: bool, count: u32, total: u32) -> Seq<ProtoEventView> {
    let counted = if greet {
        seq![ProtoEventView::Connected, ProtoEventView::Synchronizing { count, total }]
    } else {
        seq![ProtoEventView::Synchronizing { count, total }]
    };
    if count >= total {
        counted.push(ProtoEventView::Synchronized)
    } else {
        counted
    }
}

/// What the session is told over `rounds` round trips of a handshake of
/// which `done` round trips were done before.
pub open spec fn handshake_events(greet: bool, done: u32, rounds: nat, total: u32) -> Seq<
    ProtoEventView,
>
    decreases rounds,
{
    if rounds == 0 {
        Seq::empty()
    } else {
        handshake_events(greet, done, (rounds - 1) as nat, total) + round_events(
            greet && rounds == 1,
            (done + rounds) as u32,
            total,
        )
    }
}

/// One answered probe is one round trip of the handshake: the count goes up
/// by one, the session is told, and with the last round trip the connection
/// runs.
pub proof fn lemma_round_trip(v: EndpointView, now: u64, nonce: u32, later: u64)
    requires
        v.wf(),
        v.syncing(),
    ensures
        ({
            let next = v.round_trip(now, nonce, later);
            let count = (v.sync_count + 1) as u32;
            &&& next.wf()
            &&& next.sync_total == v.sync_total
            &&& next.sync_count == count
            &&& next.state == if count == v.sync_total {
                ConnState::Running
            } else {
                ConnState::Syncing
            }
            &&& next.events == v.events + round_events(
                v.state == ConnState::Initializing,
                count,
                v.sync_total,
            )
        }),
{
    let probed = v.poll(now, nonce);
    let m = UdpMsgView::SyncReply { nonce: probed.nonce };
    lemma_steps(v, arbitrary(), arbitrary(), 0, now, nonce);
    lemma_steps(probed, m, arbitrary(), 0, later, 0);
    let next = v.round_trip(now, nonce, later);
    assert(probed.awaiting && probed.syncing());
    assert(next == probed.sync_step(later));
    assert(next.events =~= v.events + round_events(
        v.state == ConnState::Initializing,
        (v.sync_count + 1) as u32,
        v.sync_total,
    ));
}

/// A handshake takes as many round trips as were asked for, and no more:
/// after every answered probe the count is one higher and the session is
/// told so, once and in order; the connection runs after the last round
/// trip and not before.
pub proof fn lemma_handshake(v: EndpointView, rounds: Seq<(u64, u32, u64)>)
    requires
        v.wf(),
        v.syncing(),
        rounds.len() >= 1,
        v.sync_count + rounds.len() <= v.sync_total,
    ensures
        ({
            let end = v.round_trips(rounds);
            &&& end.wf()
            &&& end.sync_total == v.sync_total
            &&& end.sync_count == v.sync_count + rounds.len()
            &&& end.state == if end.sync_count == v.sync_total {
                ConnState::Running
            } else {
                ConnState::Syncing
            }
            &&& end.events == v.events + handshake_events(
                v.state == ConnState::Initializing,
                v.sync_count,
                rounds.len(),
                v.sync_total,
            )
        }),
    decreases rounds.len(),
{
    let head = rounds.drop_last();
    let mid = v.round_trips(head);
    let last = rounds.last();
    let greet = v.state == ConnState::Initializing;
    if head.len() > 0 {
        lemma_handshake(v, head);
    } else {
        assert(handshake_events(greet, v.sync_count, 0, v.sync_total) =~= Seq::empty());
        assert(v.events + Seq::<ProtoEventView>::empty() =~= v.events);
    }
    lemma_round_trip(mid, last.0, last.1, last.2);
    let end = v.round_trips(rounds);
    assert(end.events =~= v.events + handshake_events(
        greet,
        v.sync_count,
        rounds.len(),
        v.sync_total,
    ));
}

impl EndpointView {
    /// What the session is told of a connection that was running when the
    /// peer fell silent, by the time a tick finds the peer silent for `idle`
    /// milliseconds: first that the connection is interrupted, then that the
    /// peer was given up.
    pub open spec fn silence_events(self, idle: u64) -> Seq<ProtoEventView> {
        let interrupted = if idle > self.disconnect_notify_start {
            seq![
                ProtoEventView::NetworkInterrupted {
                    disconnect_timeout: elapsed(
                        self.disconnect_timeout,
                        self.disconnect_notify_start,
                    ),
                },
            ]
        } else {
            Seq::empty()
        };
        if idle > self.disconnect_notify_start && idle >= self.disconnect_timeout {
            interrupted.push(ProtoEventView::Disconnected)
        } else {
            interrupted
        }
    }
}

/// Over any number of ticks of the session in which nothing is heard from a
/// peer whose connection was running, the session is told once that the
/// connection is interrupted, at the tick that finds the peer silent for
/// more than `disconnect_notify_start`, and then once that the peer was
/// given up, at the tick that finds it silent for `disconnect_timeout` or
/// more; and it is told nothing else, however often it fetches what the
/// connection has to tell.
pub proof fn lemma_silent_ticks(
    v: EndpointView,
    times: Seq<u64>,
    nonces: Seq<u32>,
    frames: Seq<Frame>,
)
    requires
        v.wf(),
        v.state == ConnState::Running,
        times.len() == nonces.len(),
        times.len() == frames.len(),
        times.len() > 0,
        forall|i: int, j: int| 0 <= i <= j < times.len() ==> times[i] <= times[j],
    ensures
        ({
            let end = v.silent_ticks(times, nonces, frames);
            let idle = elapsed(times.last(), v.last_recv_time);
            &&& end.state == v.state_after_silence(idle)
            &&& v.told_in_silence(times, nonces, frames) == v.events + v.silence_events(idle)
            &&& end.events == Seq::<ProtoEventView>::empty()
            &&& end.last_recv_time == v.last_recv_time
            &&& end.disconnect_timeout == v.disconnect_timeout
            &&& end.disconnect_notify_start == v.disconnect_notify_start
        }),
    decreases times.len(),
{
    let head_times = times.drop_last();
    let head_nonces = nonces.drop_last();
    let head_frames = frames.drop_last();
    let now = times.last();
    let mid = v.silent_ticks(head_times, head_nonces, head_frames);
    let noted = mid.note_local_frame(frames.last());
    let step = noted.poll(now, nonces.last());
    let idle = elapsed(now, v.last_recv_time);
    let told = v.told_in_silence(times, nonces, frames);
    if head_times.len() > 0 {
        assert forall|i: int, j: int| 0 <= i <= j < head_times.len() implies head_times[i]
            <= head_times[j] by {
            assert(head_times[i] == times[i] && head_times[j] == times[j]);
        }
        lemma_silent_ticks(v, head_times, head_nonces, head_frames);
        assert(head_times.last() == times[times.len() - 2]);
        assert(head_times.last() <= now);
    }
    if noted.exchanging() {
        lemma_poll_running(noted, now);
    }
    if head_times.len() > 0 {
        assert(told =~= v.events + v.silence_events(idle));
    } else {
        assert(v.told_in_silence(head_times, head_nonces, head_frames) =~= Seq::empty());
        assert(told =~= v.events + v.silence_events(idle));
    }
}

} // verus!
