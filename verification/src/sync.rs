//! Input histories, checkpoints and the decision when to replay.
//!
//! The manager holds one input history per player and a bounded list of
//! saved game states. It hands out the inputs of the current frame, guessed
//! where they are not known yet, and when a guess proves wrong it takes the
//! simulation back to a saved state and runs it forward again.

use crate::game_input::{Frame, NULL_FRAME};
use crate::ggpo::{GGPOError, GGPOSessionCallbacks};
use crate::input_queue::{lemma_pad_extends, InputQueue, InputQueueView};
use bytes::Bytes;
use vstd::prelude::*;

verus! {

/// The most players that a session can have.
pub const MAX_PLAYERS: usize = 16;

#[verifier::external_type_specification]
#[verifier::external_body]
pub struct ExBytes(bytes::Bytes);

/// The bytes that a buffer holds.
pub uninterp spec fn buffer_bytes(buffer: Bytes) -> Seq<u8>;

/// Calls `Bytes::len`, which returns the number of bytes that the buffer
/// holds.
#[verifier::external_body]
pub(crate) fn buffer_len(buffer: &Bytes) -> (n: usize)
    ensures
        n == buffer_bytes(*buffer).len(),
{
    buffer.len()
}

/// A saved game state: what the game handed over when it was asked to save
/// `frame`, the state in which the simulation of `frame` starts.
pub struct SavedState {
    pub frame: Frame,
    pub buffer: Bytes,
    pub checksum: Option<u32>,
}

/// What the manager knows of one player besides the inputs.
#[derive(Debug, Clone, Copy, PartialEq, Eq, Structural)]
pub struct Slot {
    /// The player's inputs arrive over the network.
    pub remote: bool,
    /// The player still takes part.
    pub connected: bool,
    /// By how many frames the player's local input is put off.
    pub frame_delay: i32,
}

/// Mathematical value of a [`Sync`].
pub struct SyncView {
    pub input_size: nat,
    pub prediction_window: int,
    pub max_checkpoints: nat,
    pub queues: Seq<InputQueueView>,
    pub slots: Seq<Slot>,
    pub current_frame: int,
    pub checkpoints: Seq<SavedState>,
    pub in_rollback: bool,
}

/// The value of bit `p` of a word.
pub open spec fn bit_value(p: int) -> int
    decreases p,
{
    if p <= 0 {
        1
    } else {
        2 * bit_value(p - 1)
    }
}

/// The histories after an input was handed out for each of the frames
/// `from..to`, in turn.
pub open spec fn replay(queues: Seq<InputQueueView>, from: int, to: int) -> Seq<InputQueueView>
    decreases to - from,
{
    if from >= to {
        queues
    } else {
        replay(queues, from, to - 1).map_values(|q: InputQueueView| q.request(to - 1))
    }
}

/// The place in `list` of the newest checkpoint that is not after `frame`,
/// `-1` if there is none.
pub open spec fn newest_at_or_before(list: Seq<SavedState>, frame: int) -> int
    decreases list.len(),
{
    if list.len() == 0 {
        -1
    } else if list.last().frame <= frame {
        list.len() - 1
    } else {
        newest_at_or_before(list.drop_last(), frame)
    }
}

/// A checksum taken of `frame` differs from the one that a checkpoint of the
/// same frame in `list` holds.
pub open spec fn contradicts(list: Seq<SavedState>, frame: int, checksum: Option<u32>) -> bool {
    exists|i: int|
        0 <= i < list.len() && (#[trigger] list[i]).frame == frame && list[i].checksum.is_some()
            && checksum.is_some() && list[i].checksum != checksum
}

/// The checkpoints of `list` up to the last one before `frame`.
pub open spec fn keep_before(list: Seq<SavedState>, frame: int) -> Seq<SavedState>
    decreases list.len(),
{
    if list.len() == 0 || list.last().frame < frame {
        list
    } else {
        keep_before(list.drop_last(), frame)
    }
}

impl SyncView {
    pub open spec fn wf(self) -> bool {
        &&& self.queues.len() == self.slots.len()
        &&& self.queues.len() <= MAX_PLAYERS
        &&& forall|p: int|
            0 <= p < self.queues.len() ==> (#[trigger] self.queues[p]).wf() && self.queues[p].input_size
                == self.input_size
        &&& forall|p: int| 0 <= p < self.slots.len() ==> (#[trigger] self.slots[p]).frame_delay >= 0
        &&& 0 <= self.current_frame <= i32::MAX
        &&& 0 <= self.prediction_window <= i32::MAX
        &&& 1 <= self.max_checkpoints
        &&& self.checkpoints.len() <= self.max_checkpoints
        &&& forall|i: int|
            0 <= i < self.checkpoints.len() ==> 0 <= (#[trigger] self.checkpoints[i]).frame
                <= self.current_frame
        &&& forall|i: int, j: int|
            0 <= i < j < self.checkpoints.len() ==> (#[trigger] self.checkpoints[i]).frame < (
            #[trigger] self.checkpoints[j]).frame
    }

    /// Player `p` is a remote player who still takes part.
    pub open spec fn awaited(self, p: int) -> bool {
        0 <= p < self.queues.len() && self.slots[p].remote && self.slots[p].connected
    }

    /// The lowest confirmed watermark among the first `n` players that are
    /// awaited; the largest frame if none of them is.
    pub open spec fn min_confirmed_among(self, n: int) -> int
        decreases n,
    {
        if n <= 0 {
            i32::MAX as int
        } else {
            let rest = self.min_confirmed_among(n - 1);
            if self.awaited(n - 1) && self.queues[n - 1].last_confirmed() < rest {
                self.queues[n - 1].last_confirmed()
            } else {
                rest
            }
        }
    }

    /// The lowest confirmed watermark among the awaited players.
    pub open spec fn min_confirmed(self) -> int {
        self.min_confirmed_among(self.queues.len() as int)
    }

    /// The simulation has run further ahead of the confirmed inputs than the
    /// prediction window allows.
    pub open spec fn over_threshold(self) -> bool {
        self.current_frame - self.min_confirmed() > self.prediction_window
    }

    /// The frame at which a local input of player `p` given now takes effect.
    pub open spec fn target_frame(self, p: int) -> int {
        self.current_frame + self.slots[p].frame_delay
    }

    /// A replay is due or under way: a guess has proved wrong and the
    /// simulation was not replayed since, or a replay was begun and not
    /// ended.
    pub open spec fn rolling_back(self) -> bool {
        self.in_rollback || self.first_incorrect() != NULL_FRAME
    }

    /// What [`Sync::add_local_input`] answers.
    pub open spec fn local_input_result(self, p: int, bits: Seq<u8>) -> Result<Frame, GGPOError> {
        if self.rolling_back() {
            Err(GGPOError::InRollback)
        } else if !(0 <= p < self.queues.len()) {
            Err(GGPOError::PlayerOutOfRange)
        } else if self.slots[p].remote {
            Err(GGPOError::InvalidPlayerHandle)
        } else if bits.len() != self.input_size {
            Err(GGPOError::InvalidRequest)
        } else if self.over_threshold() {
            Err(GGPOError::PredictionThreshold)
        } else if self.target_frame(p) < self.queues[p].confirmed.len() {
            Err(GGPOError::InputDropped)
        } else if self.target_frame(p) > i32::MAX {
            Err(GGPOError::GeneralFailure)
        } else {
            Ok(self.target_frame(p) as Frame)
        }
    }

    /// The manager after [`Sync::add_local_input`].
    pub open spec fn after_local_input(self, p: int, bits: Seq<u8>) -> SyncView {
        if self.local_input_result(p, bits).is_ok() {
            SyncView {
                queues: self.queues.update(
                    p,
                    self.queues[p].pad(self.target_frame(p)).confirm(bits),
                ),
                ..self
            }
        } else {
            self
        }
    }

    /// A remote input for `frame` of player `p` is taken when the player is
    /// awaited, the frame is the next one to confirm and the length fits.
    pub open spec fn takes_remote_input(self, p: int, frame: int, bits: Seq<u8>) -> bool {
        &&& self.awaited(p)
        &&& frame == self.queues[p].confirmed.len()
        &&& frame <= i32::MAX
        &&& bits.len() == self.input_size
    }

    /// The manager after [`Sync::add_remote_input`].
    pub open spec fn after_remote_input(self, p: int, frame: int, bits: Seq<u8>) -> SyncView {
        if self.takes_remote_input(p, frame, bits) {
            SyncView { queues: self.queues.update(p, self.queues[p].confirm(bits)), ..self }
        } else {
            self
        }
    }

    /// The inputs of all players to simulate `frame` with.
    pub open spec fn resolve_all(self, frame: int) -> Seq<Seq<u8>> {
        Seq::new(self.queues.len(), |p: int| self.queues[p].resolve(frame))
    }

    /// The word whose bit `p` tells that player `p`, one of the first `n`,
    /// takes part no more.
    pub open spec fn disconnect_flags_among(self, n: int) -> int
        decreases n,
    {
        if n <= 0 {
            0
        } else {
            self.disconnect_flags_among(n - 1) + if self.slots[n - 1].connected {
                0
            } else {
                bit_value(n - 1)
            }
        }
    }

    /// The word whose bit `p` tells that player `p` takes part no more.
    pub open spec fn disconnect_flags(self) -> int {
        self.disconnect_flags_among(self.slots.len() as int)
    }

    /// The lowest frame, among the first `n` players, that waits to be
    /// corrected; `NULL_FRAME` if none does.
    pub open spec fn first_incorrect_among(self, n: int) -> int
        decreases n,
    {
        if n <= 0 {
            NULL_FRAME as int
        } else {
            let rest = self.first_incorrect_among(n - 1);
            let mine = self.queues[n - 1].first_incorrect;
            if mine != NULL_FRAME && (rest == NULL_FRAME || mine < rest) {
                mine
            } else {
                rest
            }
        }
    }

    /// The frame from which the simulation has to be replayed, `NULL_FRAME`
    /// if every guess so far has held.
    pub open spec fn first_incorrect(self) -> int {
        self.first_incorrect_among(self.queues.len() as int)
    }

    /// The manager after the inputs of the current frame were handed out.
    pub open spec fn after_synchronize(self) -> SyncView {
        SyncView {
            queues: self.queues.map_values(|q: InputQueueView| q.request(self.current_frame)),
            ..self
        }
    }

    /// The manager after the game has played the current frame: the input
    /// of local player `p` was taken, the inputs were handed out, and the
    /// frame counter has moved on.
    pub open spec fn played(self, p: int, bits: Seq<u8>) -> SyncView {
        let handed = self.after_local_input(p, bits).after_synchronize();
        SyncView { current_frame: handed.current_frame + 1, ..handed }
    }

    /// The manager after the game has played one frame for each of
    /// `inputs`, with nothing heard of the remote players meanwhile.
    pub open spec fn played_all(self, p: int, inputs: Seq<Seq<u8>>) -> SyncView
        decreases inputs.len(),
    {
        if inputs.len() == 0 {
            self
        } else {
            self.played_all(p, inputs.drop_last()).played(p, inputs.last())
        }
    }

    /// Local player `p` is in step with the game: its inputs take effect at
    /// once, it has given one for every frame before the current one and
    /// none for a later one, and no replay is due or under way.
    pub open spec fn in_step(self, p: int) -> bool {
        &&& self.queues.len() == self.slots.len()
        &&& 0 <= p < self.queues.len()
        &&& !self.slots[p].remote
        &&& self.slots[p].frame_delay == 0
        &&& self.queues[p].confirmed.len() == self.current_frame
        &&& self.queues[p].predicted.len() == 0
        &&& self.queues[p].first_incorrect == NULL_FRAME
        &&& !self.rolling_back()
    }

    /// The checkpoints after `state` was stored: the ones of earlier frames,
    /// then `state`, without the oldest where the list would grow beyond its
    /// bound.
    pub open spec fn checkpoints_with(self, state: SavedState) -> Seq<SavedState> {
        let kept = keep_before(self.checkpoints, state.frame as int).push(state);
        if kept.len() > self.max_checkpoints {
            kept.skip(1)
        } else {
            kept
        }
    }

    /// The state that the game handed over for the current frame, as the
    /// manager keeps it.
    pub open spec fn saved_state(self, buffer: Bytes, checksum: Option<u32>) -> SavedState {
        SavedState { frame: self.current_frame as Frame, buffer, checksum }
    }

    /// The manager after the game answered the request to save the current
    /// frame: what it handed over is stored; if it handed over nothing,
    /// nothing changes.
    pub open spec fn after_save(self, answer: Option<(Bytes, Option<u32>)>) -> SyncView {
        match answer {
            None => self,
            Some(pair) => SyncView {
                checkpoints: self.checkpoints_with(self.saved_state(pair.0, pair.1)),
                ..self
            },
        }
    }

    /// A state that a replay saved for the current frame diverges: the
    /// frame is one of those up to `same_until`, whose states must come out
    /// as they did the first time, and the checksum differs from the one
    /// that `stale`, the checkpoints of the first time, hold for the frame.
    pub open spec fn diverges(
        self,
        stale: Seq<SavedState>,
        same_until: int,
        checksum: Option<u32>,
    ) -> bool {
        self.current_frame <= same_until && contradicts(stale, self.current_frame, checksum)
    }

    /// What a replay makes of the game's answer to the request to save the
    /// current frame: it goes on when the game handed over a state that does
    /// not diverge, and is given up otherwise.
    pub open spec fn replayed_result(
        self,
        stale: Seq<SavedState>,
        same_until: int,
        answer: Option<(Bytes, Option<u32>)>,
    ) -> Result<(), GGPOError> {
        match answer {
            None => Err(GGPOError::GeneralFailure),
            Some(pair) => if self.diverges(stale, same_until, pair.1) {
                Err(GGPOError::GeneralFailure)
            } else {
                Ok(())
            },
        }
    }

    /// The states that the manager lets go of when a replay takes the game's
    /// answer: the state that diverges, or the checkpoints that storing the
    /// state drops.
    pub open spec fn replayed_released(
        self,
        stale: Seq<SavedState>,
        same_until: int,
        answer: Option<(Bytes, Option<u32>)>,
    ) -> Seq<SavedState> {
        match answer {
            None => Seq::empty(),
            Some(pair) => if self.diverges(stale, same_until, pair.1) {
                seq![self.saved_state(pair.0, pair.1)]
            } else {
                self.checkpoints_dropped_by(self.saved_state(pair.0, pair.1))
            },
        }
    }

    /// The checkpoints that storing `state` drops: the ones of its frame and
    /// of later frames, and the oldest where the list would grow beyond its
    /// bound.
    pub open spec fn checkpoints_dropped_by(self, state: SavedState) -> Seq<SavedState> {
        let kept = keep_before(self.checkpoints, state.frame as int);
        let late = self.checkpoints.subrange(kept.len() as int, self.checkpoints.len() as int);
        if kept.len() + 1 > self.max_checkpoints {
            late.push(self.checkpoints[0])
        } else {
            late
        }
    }

    /// The manager after the replay from checkpoint `i` has run through: the
    /// frame counter is where it was and the histories hold what was handed
    /// out on the way.
    pub open spec fn replayed_queues(self, i: int) -> Seq<InputQueueView> {
        replay(self.rewound(i).queues, self.checkpoints[i].frame as int, self.current_frame)
    }

    /// The manager taken back to checkpoint `i`: the frame counter is at the
    /// checkpoint's frame, the later checkpoints are gone, no frame waits to
    /// be corrected and a replay is under way.
    pub open spec fn rewound(self, i: int) -> SyncView {
        SyncView {
            queues: self.queues.map_values(|q: InputQueueView| q.settle()),
            current_frame: self.checkpoints[i].frame as int,
            checkpoints: self.checkpoints.subrange(0, i + 1),
            in_rollback: true,
            ..self
        }
    }

    /// The place in the list of the checkpoint from which a replay starts:
    /// the newest one that is not after the first incorrect frame. `-1` if
    /// there is none.
    pub open spec fn rollback_checkpoint(self) -> int {
        newest_at_or_before(self.checkpoints, self.first_incorrect())
    }

    /// The inputs that the replay from checkpoint `i` hands to the game, one
    /// set for each frame from the checkpoint's up to the current one.
    pub open spec fn replay_inputs(self, i: int) -> Seq<Seq<Seq<u8>>> {
        let start = self.checkpoints[i].frame as int;
        Seq::new(
            (self.current_frame - start) as nat,
            |k: int|
                (SyncView {
                    queues: replay(self.rewound(i).queues, start, start + k),
                    ..self
                }).resolve_all(start + k),
        )
    }
}

/// The values of a vector of histories.
pub open spec fn queue_views(v: Seq<InputQueue>) -> Seq<InputQueueView> {
    v.map_values(|q: InputQueue| q@)
}

/// The input histories, the checkpoints and the frame counter of a session.
pub struct Sync {
    input_size: usize,
    prediction_window: i32,
    max_checkpoints: usize,
    queues: Vec<InputQueue>,
    slots: Vec<Slot>,
    current_frame: Frame,
    checkpoints: Vec<SavedState>,
    in_rollback: bool,
}

impl View for Sync {
    type V = SyncView;

    closed spec fn view(&self) -> SyncView {
        SyncView {
            input_size: self.input_size as nat,
            prediction_window: self.prediction_window as int,
            max_checkpoints: self.max_checkpoints as nat,
            queues: queue_views(self.queues@),
            slots: self.slots@,
            current_frame: self.current_frame as int,
            checkpoints: self.checkpoints@,
            in_rollback: self.in_rollback,
        }
    }
}

proof fn lemma_bit_value_bound(p: int)
    requires
        0 <= p <= MAX_PLAYERS,
    ensures
        0 < bit_value(p) <= 0x1_0000,
        p < MAX_PLAYERS ==> bit_value(p) <= 0x8000,
    decreases MAX_PLAYERS - p,
{
    reveal_with_fuel(bit_value, 17);
}

proof fn lemma_flags_bound(v: SyncView, n: int)
    requires
        0 <= n <= v.slots.len() <= MAX_PLAYERS,
    ensures
        0 <= v.disconnect_flags_among(n) < bit_value(n),
    decreases n,
{
    if n > 0 {
        lemma_flags_bound(v, n - 1);
    }
}

impl Sync {
    /// Holds of every manager that this module hands out.
    pub open spec fn wf(&self) -> bool {
        self@.wf()
    }

    /// A manager without players, at frame zero, with no checkpoint.
    ///
    /// `prediction_window` is the number of frames that the simulation may
    /// run ahead of the confirmed inputs, `max_checkpoints` the number of
    /// saved states that are kept. A negative window or a list of no
    /// checkpoints is refused.
    pub fn new(input_size: usize, prediction_window: i32, max_checkpoints: usize) -> (made: Result<
        Sync,
        GGPOError,
    >)
        ensures
            made.is_ok() <==> prediction_window >= 0 && max_checkpoints >= 1,
            made.is_err() ==> made == Err::<Sync, GGPOError>(GGPOError::InvalidRequest),
            made.is_ok() ==> made.unwrap().wf() && made.unwrap()@ == (SyncView {
                input_size: input_size as nat,
                prediction_window: prediction_window as int,
                max_checkpoints: max_checkpoints as nat,
                queues: Seq::empty(),
                slots: Seq::empty(),
                current_frame: 0,
                checkpoints: Seq::empty(),
                in_rollback: false,
            }),
    {
        if prediction_window < 0 || max_checkpoints < 1 {
            return Err(GGPOError::InvalidRequest);
        }
        let sync = Sync {
            input_size,
            prediction_window,
            max_checkpoints,
            queues: Vec::new(),
            slots: Vec::new(),
            current_frame: 0,
            checkpoints: Vec::new(),
            in_rollback: false,
        };
        assert(sync@.queues =~= Seq::empty());
        Ok(sync)
    }

    /// Adds a player, local or remote, with an empty history and no input
    /// delay, and returns the player's number. Refuses when the session is
    /// full.
    pub fn add_player(&mut self, remote: bool) -> (added: Result<usize, GGPOError>)
        requires
            old(self).wf(),
        ensures
            final(self).wf(),
            match added {
                Ok(p) => old(self)@.queues.len() < MAX_PLAYERS && p == old(self)@.queues.len()
                    && final(self)@ == (SyncView {
                    queues: old(self)@.queues.push(
                        InputQueueView {
                            input_size: old(self)@.input_size,
                            confirmed: Seq::empty(),
                            predicted: Seq::empty(),
                            first_incorrect: NULL_FRAME as int,
                        },
                    ),
                    slots: old(self)@.slots.push(Slot { remote, connected: true, frame_delay: 0 }),
                    ..old(self)@
                }),
                Err(e) => e == GGPOError::PlayerOutOfRange && old(self)@.queues.len()
                    == MAX_PLAYERS && final(self)@ == old(self)@,
            },
    {
        let p = self.queues.len();
        if p >= MAX_PLAYERS {
            return Err(GGPOError::PlayerOutOfRange);
        }
        let queue = InputQueue::new(self.input_size);
        self.queues.push(queue);
        self.slots.push(Slot { remote, connected: true, frame_delay: 0 });
        proof {
            assert(self@.queues =~= old(self)@.queues.push(queue@));
        }
        Ok(p)
    }

    /// The number of players.
    pub fn num_players(&self) -> (n: usize)
        requires
            self.wf(),
        ensures
            n == self@.queues.len(),
    {
        self.queues.len()
    }

    /// Length in bytes of every input.
    pub fn input_size(&self) -> (n: usize)
        ensures
            n == self@.input_size,
    {
        self.input_size
    }

    /// The frame that is simulated next.
    pub fn current_frame(&self) -> (frame: Frame)
        ensures
            frame == self@.current_frame,
    {
        self.current_frame
    }

    /// Whether a replay is under way, or was given up.
    pub fn in_rollback(&self) -> (yes: bool)
        ensures
            yes == self@.in_rollback,
    {
        self.in_rollback
    }

    /// The number of checkpoints that are kept.
    pub fn num_checkpoints(&self) -> (n: usize)
        ensures
            n == self@.checkpoints.len(),
    {
        self.checkpoints.len()
    }

    /// What is known of player `p` besides the inputs.
    pub fn slot(&self, p: usize) -> (slot: Option<Slot>)
        requires
            self.wf(),
        ensures
            slot == if p < self@.slots.len() {
                Some(self@.slots[p as int])
            } else {
                None
            },
    {
        if p < self.slots.len() {
            Some(self.slots[p])
        } else {
            None
        }
    }

    /// The confirmed watermark of player `p`, `NULL_FRAME` for a number that
    /// names no player.
    pub fn last_confirmed_frame(&self, p: usize) -> (frame: Frame)
        requires
            self.wf(),
        ensures
            frame == if p < self@.queues.len() {
                self@.queues[p as int].last_confirmed()
            } else {
                NULL_FRAME as int
            },
    {
        if p < self.queues.len() {
            assert(self@.queues[p as int] == self.queues@[p as int]@);
            self.queues[p].last_confirmed_frame()
        } else {
            NULL_FRAME
        }
    }

    /// The confirmed input of player `p` at `frame`, if it is known.
    pub fn confirmed_input(&self, p: usize, frame: Frame) -> (bits: Option<Vec<u8>>)
        requires
            self.wf(),
        ensures
            match bits {
                Some(b) => p < self@.queues.len() && 0 <= frame < self@.queues[p as int].confirmed.len()
                    && b@ == self@.queues[p as int].resolve(frame as int),
                None => !(p < self@.queues.len() && 0 <= frame < self@.queues[p as int].confirmed.len()),
            },
    {
        if p < self.queues.len() {
            assert(self@.queues[p as int] == self.queues@[p as int]@);
            self.queues[p].confirmed_input(frame)
        } else {
            None
        }
    }

    /// The lowest confirmed watermark among the remote players that still
    /// take part.
    pub fn min_confirmed_frame(&self) -> (frame: Frame)
        requires
            self.wf(),
        ensures
            frame == self@.min_confirmed(),
    {
        let mut lowest: Frame = i32::MAX;
        let mut p: usize = 0;
        while p < self.queues.len()
            invariant
                self.wf(),
                p <= self.queues.len(),
                self.queues.len() == self@.queues.len(),
                lowest == self@.min_confirmed_among(p as int),
            decreases self.queues.len() - p,
        {
            assert(self@.queues[p as int] == self.queues@[p as int]@);
            let slot = self.slots[p];
            if slot.remote && slot.connected {
                let mine = self.queues[p].last_confirmed_frame();
                if mine < lowest {
                    lowest = mine;
                }
            }
            p += 1;
        }
        lowest
    }

    /// Puts off the local input of player `p` by `delay` frames from now on.
    pub fn set_frame_delay(&mut self, p: usize, delay: i32) -> (done: Result<(), GGPOError>)
        requires
            old(self).wf(),
        ensures
            final(self).wf(),
            done == if p >= old(self)@.slots.len() {
                Err::<(), GGPOError>(GGPOError::PlayerOutOfRange)
            } else if old(self)@.slots[p as int].remote {
                Err(GGPOError::InvalidPlayerHandle)
            } else if delay < 0 {
                Err(GGPOError::InvalidRequest)
            } else {
                Ok(())
            },
            final(self)@ == if done.is_ok() {
                SyncView {
                    slots: old(self)@.slots.update(
                        p as int,
                        Slot { frame_delay: delay, ..old(self)@.slots[p as int] },
                    ),
                    ..old(self)@
                }
            } else {
                old(self)@
            },
    {
        if p >= self.slots.len() {
            return Err(GGPOError::PlayerOutOfRange);
        }
        let slot = self.slots[p];
        if slot.remote {
            return Err(GGPOError::InvalidPlayerHandle);
        }
        if delay < 0 {
            return Err(GGPOError::InvalidRequest);
        }
        self.slots.set(p, Slot { remote: slot.remote, connected: slot.connected, frame_delay: delay });
        Ok(())
    }

    /// Marks player `p` as taking part no more. The player's inputs are
    /// guessed from then on and the others no longer wait for them.
    pub fn disconnect_player(&mut self, p: usize) -> (done: Result<(), GGPOError>)
        requires
            old(self).wf(),
        ensures
            final(self).wf(),
            done == if p >= old(self)@.slots.len() {
                Err::<(), GGPOError>(GGPOError::PlayerOutOfRange)
            } else if !old(self)@.slots[p as int].connected {
                Err(GGPOError::PlayerDisconnected)
            } else {
                Ok(())
            },
            final(self)@ == if done.is_ok() {
                SyncView {
                    slots: old(self)@.slots.update(
                        p as int,
                        Slot { connected: false, ..old(self)@.slots[p as int] },
                    ),
                    ..old(self)@
                }
            } else {
                old(self)@
            },
    {
        if p >= self.slots.len() {
            return Err(GGPOError::PlayerOutOfRange);
        }
        let slot = self.slots[p];
        if !slot.connected {
            return Err(GGPOError::PlayerDisconnected);
        }
        self.slots.set(p, Slot { remote: slot.remote, connected: false, frame_delay: slot.frame_delay });
        Ok(())
    }
}

proof fn lemma_queue_views_update(v: Seq<InputQueue>, p: int, q: InputQueue)
    requires
        0 <= p < v.len(),
    ensures
        queue_views(v.update(p, q)) == queue_views(v).update(p, q@),
{
    assert(queue_views(v.update(p, q)) =~= queue_views(v).update(p, q@));
}

impl Sync {
    /// Judges an input of local player `p` without taking it: the frame at
    /// which it would take effect, or the reason for which it is refused.
    ///
    /// An input is refused while a replay is due or under way, from a number
    /// that names no local player, with bits of the wrong length, while the
    /// simulation is further ahead of the slowest remote player than the
    /// prediction window allows, and for a frame that holds an input already.
    pub fn judge_local_input(&self, p: usize, bits: &Vec<u8>) -> (judged: Result<Frame, GGPOError>)
        requires
            self.wf(),
        ensures
            judged == self@.local_input_result(p as int, bits@),
    {
        if self.in_rollback || self.first_incorrect_frame() != NULL_FRAME {
            return Err(GGPOError::InRollback);
        }
        if p >= self.queues.len() {
            return Err(GGPOError::PlayerOutOfRange);
        }
        let slot = self.slots[p];
        if slot.remote {
            return Err(GGPOError::InvalidPlayerHandle);
        }
        if bits.len() != self.input_size {
            return Err(GGPOError::InvalidRequest);
        }
        let lowest = self.min_confirmed_frame();
        if self.current_frame as i64 - lowest as i64 > self.prediction_window as i64 {
            return Err(GGPOError::PredictionThreshold);
        }
        let target: i64 = self.current_frame as i64 + slot.frame_delay as i64;
        assert(self@.queues[p as int] == self.queues@[p as int]@);
        let known: i64 = self.queues[p].last_confirmed_frame() as i64 + 1;
        if target < known {
            return Err(GGPOError::InputDropped);
        }
        if target > i32::MAX as i64 {
            return Err(GGPOError::GeneralFailure);
        }
        Ok(target as Frame)
    }

    /// Takes the input of local player `p` for the frame that lies the
    /// player's input delay after the current one, and returns that frame.
    /// Frames between the confirmed watermark and that frame, which an
    /// increase of the delay leaves open, repeat the most recent known input.
    ///
    /// An input that [`Sync::judge_local_input`] refuses is refused, and
    /// nothing changes.
    pub fn add_local_input(&mut self, p: usize, bits: &Vec<u8>) -> (taken: Result<Frame, GGPOError>)
        requires
            old(self).wf(),
        ensures
            final(self).wf(),
            taken == old(self)@.local_input_result(p as int, bits@),
            final(self)@ == old(self)@.after_local_input(p as int, bits@),
    {
        let target = match self.judge_local_input(p, bits) {
            Err(e) => {
                return Err(e);
            },
            Ok(target) => target,
        };
        assert(self@.queues[p as int] == self.queues@[p as int]@);
        self.queues[p].extend_to(target as usize);
        let stored = self.queues[p].confirm(bits);
        proof {
            lemma_queue_views_update(old(self).queues@, p as int, self.queues@[p as int]);
            assert(self.queues@ =~= old(self).queues@.update(p as int, self.queues@[p as int]));
        }
        Ok(target)
    }

    /// Takes the input of remote player `p` for `frame` as confirmed, and
    /// tells whether it did. It does when the player still takes part,
    /// `frame` follows the player's confirmed watermark and the bits have the
    /// right length; otherwise nothing changes.
    pub fn add_remote_input(&mut self, p: usize, frame: Frame, bits: &Vec<u8>) -> (taken: bool)
        requires
            old(self).wf(),
        ensures
            final(self).wf(),
            taken == old(self)@.takes_remote_input(p as int, frame as int, bits@),
            final(self)@ == old(self)@.after_remote_input(p as int, frame as int, bits@),
    {
        if p >= self.queues.len() {
            return false;
        }
        let slot = self.slots[p];
        assert(self@.queues[p as int] == self.queues@[p as int]@);
        if !slot.remote || !slot.connected || bits.len() != self.input_size {
            return false;
        }
        let next: i64 = self.queues[p].last_confirmed_frame() as i64 + 1;
        if frame as i64 != next {
            return false;
        }
        let stored = self.queues[p].confirm(bits);
        proof {
            lemma_queue_views_update(old(self).queues@, p as int, self.queues@[p as int]);
            assert(self.queues@ =~= old(self).queues@.update(p as int, self.queues@[p as int]));
        }
        true
    }

    /// The word whose bit `p` tells that player `p` takes part no more.
    pub fn disconnect_flags(&self) -> (flags: i32)
        requires
            self.wf(),
        ensures
            flags == self@.disconnect_flags(),
    {
        let mut flags: i32 = 0;
        let mut bit: i32 = 1;
        let mut p: usize = 0;
        while p < self.slots.len()
            invariant
                self.wf(),
                p <= self.slots.len(),
                self.slots.len() == self@.slots.len(),
                flags == self@.disconnect_flags_among(p as int),
                bit == bit_value(p as int),
            decreases self.slots.len() - p,
        {
            proof {
                lemma_bit_value_bound(p as int);
                lemma_flags_bound(self@, p as int);
            }
            if !self.slots[p].connected {
                flags = flags + bit;
            }
            bit = bit * 2;
            p += 1;
        }
        flags
    }

    /// Hands out the inputs of all players for the current frame, with the
    /// disconnect flags. An input that is not known yet is guessed, and the
    /// guess is recorded.
    pub fn synchronize_input(&mut self) -> (handed: (Vec<Vec<u8>>, i32))
        requires
            old(self).wf(),
        ensures
            final(self).wf(),
            crate::input_queue::rows(handed.0@) == old(self)@.resolve_all(
                old(self)@.current_frame,
            ),
            handed.1 == old(self)@.disconnect_flags(),
            final(self)@ == old(self)@.after_synchronize(),
    {
        let flags = self.disconnect_flags();
        let frame = self.current_frame;
        let mut inputs: Vec<Vec<u8>> = Vec::new();
        let mut p: usize = 0;
        let ghost goal = old(self)@.after_synchronize();
        while p < self.queues.len()
            invariant
                self.wf(),
                p <= self.queues.len(),
                frame == old(self)@.current_frame,
                goal == old(self)@.after_synchronize(),
                self.queues.len() == old(self)@.queues.len(),
                self@ == (SyncView { queues: self@.queues, ..old(self)@ }),
                forall|i: int| 0 <= i < p ==> #[trigger] self@.queues[i] == goal.queues[i],
                forall|i: int|
                    p <= i < self.queues.len() ==> #[trigger] self@.queues[i] == old(self)@.queues[i],
                inputs@.len() == p,
                forall|i: int|
                    0 <= i < p ==> (#[trigger] inputs@[i])@ == old(self)@.queues[i].resolve(
                        frame as int,
                    ),
            decreases self.queues.len() - p,
        {
            let ghost before = self.queues@;
            assert(self@.queues[p as int] == self.queues@[p as int]@);
            let bits = self.queues[p].input(frame);
            proof {
                lemma_queue_views_update(before, p as int, self.queues@[p as int]);
                assert(self.queues@ =~= before.update(p as int, self.queues@[p as int]));
            }
            inputs.push(bits);
            p += 1;
        }
        proof {
            assert(self@.queues =~= goal.queues);
            assert(crate::input_queue::rows(inputs@) =~= old(self)@.resolve_all(frame as int));
        }
        (inputs, flags)
    }

    /// The frame from which the simulation has to be replayed, `NULL_FRAME`
    /// if every guess so far has held.
    pub fn first_incorrect_frame(&self) -> (frame: Frame)
        requires
            self.wf(),
        ensures
            frame == self@.first_incorrect(),
    {
        let mut lowest: Frame = NULL_FRAME;
        let mut p: usize = 0;
        while p < self.queues.len()
            invariant
                self.wf(),
                p <= self.queues.len(),
                self.queues.len() == self@.queues.len(),
                lowest == self@.first_incorrect_among(p as int),
            decreases self.queues.len() - p,
        {
            assert(self@.queues[p as int] == self.queues@[p as int]@);
            let mine = self.queues[p].first_incorrect_frame();
            if mine != NULL_FRAME && (lowest == NULL_FRAME || mine < lowest) {
                lowest = mine;
            }
            p += 1;
        }
        lowest
    }

    /// The newest checkpoint that is not after `frame`, by its place in the
    /// list.
    pub fn find_checkpoint(&self, frame: Frame) -> (found: Option<usize>)
        requires
            self.wf(),
        ensures
            match found {
                Some(i) => i == newest_at_or_before(self@.checkpoints, frame as int) && i
                    < self@.checkpoints.len() && self@.checkpoints[i as int].frame <= frame,
                None => newest_at_or_before(self@.checkpoints, frame as int) == -1,
            },
    {
        let mut i: usize = self.checkpoints.len();
        assert(self@.checkpoints.subrange(0, i as int) =~= self@.checkpoints);
        while i > 0
            invariant
                self.wf(),
                i <= self.checkpoints.len(),
                newest_at_or_before(self@.checkpoints, frame as int) == newest_at_or_before(
                    self@.checkpoints.subrange(0, i as int),
                    frame as int,
                ),
            decreases i,
        {
            proof {
                let head = self@.checkpoints.subrange(0, i as int);
                assert(head.drop_last() =~= self@.checkpoints.subrange(0, i - 1));
            }
            i -= 1;
            if self.checkpoints[i].frame <= frame {
                return Some(i);
            }
        }
        None
    }

    /// Moves the frame counter on by one. At the last frame it stays.
    pub fn advance_frame(&mut self) -> (moved: bool)
        requires
            old(self).wf(),
        ensures
            final(self).wf(),
            moved == (old(self)@.current_frame < i32::MAX),
            final(self)@ == (SyncView {
                current_frame: if moved {
                    old(self)@.current_frame + 1
                } else {
                    old(self)@.current_frame
                },
                ..old(self)@
            }),
    {
        if self.current_frame < i32::MAX {
            self.current_frame = self.current_frame + 1;
            true
        } else {
            false
        }
    }

    /// Ends a replay.
    pub fn finish_rollback(&mut self)
        requires
            old(self).wf(),
        ensures
            final(self).wf(),
            final(self)@ == (SyncView { in_rollback: false, ..old(self)@ }),
    {
        self.in_rollback = false;
    }
}

proof fn lemma_keep_before(list: Seq<SavedState>, frame: int, k: int)
    requires
        0 <= k <= list.len(),
        forall|j: int| k <= j < list.len() ==> list[j].frame >= frame,
        k > 0 ==> list[k - 1].frame < frame,
    ensures
        keep_before(list, frame) == list.subrange(0, k),
    decreases list.len(),
{
    if list.len() == k {
        assert(list.subrange(0, k) =~= list);
    } else {
        lemma_keep_before(list.drop_last(), frame, k);
        assert(list.drop_last().subrange(0, k) =~= list.subrange(0, k));
    }
}

proof fn lemma_none_incorrect(v: SyncView, n: int)
    requires
        0 <= n <= v.queues.len(),
        forall|p: int| 0 <= p < v.queues.len() ==> (#[trigger] v.queues[p]).first_incorrect == NULL_FRAME,
    ensures
        v.first_incorrect_among(n) == NULL_FRAME,
    decreases n,
{
    if n > 0 {
        lemma_none_incorrect(v, n - 1);
    }
}

impl Sync {
    /// Stores `state` as the checkpoint of its frame and returns the
    /// checkpoints that this drops: those of the same and of later frames,
    /// which belong to a course of the simulation that was given up, and the
    /// oldest one where the list is full.
    pub fn store_checkpoint(&mut self, state: SavedState) -> (dropped: Vec<SavedState>)
        requires
            old(self).wf(),
            0 <= state.frame <= old(self)@.current_frame,
        ensures
            final(self).wf(),
            final(self)@ == (SyncView {
                checkpoints: old(self)@.checkpoints_with(state),
                ..old(self)@
            }),
            dropped@ == old(self)@.checkpoints_dropped_by(state),
    {
        let mut k: usize = self.checkpoints.len();
        while k > 0 && self.checkpoints[k - 1].frame >= state.frame
            invariant
                self.wf(),
                self@ == old(self)@,
                k <= self.checkpoints.len(),
                forall|j: int| k <= j < self.checkpoints.len() ==> self@.checkpoints[j].frame >= state.frame,
            decreases k,
        {
            k -= 1;
        }
        proof {
            lemma_keep_before(self.checkpoints@, state.frame as int, k as int);
        }
        let mut dropped = self.checkpoints.split_off(k);
        self.checkpoints.push(state);
        if self.checkpoints.len() > self.max_checkpoints {
            let oldest = self.checkpoints.remove(0);
            dropped.push(oldest);
        }
        proof {
            assert(self@.checkpoints =~= old(self)@.checkpoints_with(state));
            assert(dropped@ =~= old(self)@.checkpoints_dropped_by(state));
        }
        dropped
    }

    /// Takes the manager back to checkpoint `i` to start a replay, and
    /// returns the later checkpoints, which it drops.
    pub fn rewind(&mut self, i: usize) -> (dropped: Vec<SavedState>)
        requires
            old(self).wf(),
            i < old(self)@.checkpoints.len(),
        ensures
            final(self).wf(),
            final(self)@ == old(self)@.rewound(i as int),
            dropped@ == old(self)@.checkpoints.subrange(
                i + 1,
                old(self)@.checkpoints.len() as int,
            ),
    {
        let dropped = self.checkpoints.split_off(i + 1);
        self.current_frame = self.checkpoints[i].frame;
        self.in_rollback = true;
        let mut p: usize = 0;
        while p < self.queues.len()
            invariant
                self.wf(),
                p <= self.queues.len(),
                self.queues.len() == old(self)@.queues.len(),
                self@ == (SyncView { queues: self@.queues, ..old(self)@.rewound(i as int) }),
                forall|j: int|
                    0 <= j < p ==> #[trigger] self@.queues[j] == old(self)@.queues[j].settle(),
                forall|j: int|
                    p <= j < self.queues.len() ==> #[trigger] self@.queues[j] == old(self)@.queues[j],
            decreases self.queues.len() - p,
        {
            let ghost before = self.queues@;
            assert(self@.queues[p as int] == self.queues@[p as int]@);
            self.queues[p].settle();
            proof {
                lemma_queue_views_update(before, p as int, self.queues@[p as int]);
                assert(self.queues@ =~= before.update(p as int, self.queues@[p as int]));
            }
            p += 1;
        }
        proof {
            assert(self@.queues =~= old(self)@.rewound(i as int).queues);
        }
        dropped
    }
}

fn free_all<C: GGPOSessionCallbacks>(callbacks: &mut C, dropped: Vec<SavedState>) {
    let mut i: usize = 0;
    while i < dropped.len()
        invariant
            i <= dropped.len(),
        decreases dropped.len() - i,
    {
        callbacks.free_buffer(&dropped[i].buffer);
        i += 1;
    }
}

impl Sync {
    /// Takes the game's answer to the request to save the current frame.
    /// What the game handed over is stored as the checkpoint of the current
    /// frame; the answer tells that it was, and lists the checkpoints that
    /// this drops. Where the game handed over nothing, nothing is stored and
    /// nothing is dropped.
    pub fn take_saved(&mut self, answer: Option<(Bytes, Option<u32>)>) -> (taken: (
        bool,
        Vec<SavedState>,
    ))
        requires
            old(self).wf(),
        ensures
            final(self).wf(),
            taken.0 == answer.is_some(),
            final(self)@ == old(self)@.after_save(answer),
            taken.1@ == match answer {
                None => Seq::<SavedState>::empty(),
                Some(pair) => old(self)@.checkpoints_dropped_by(
                    old(self)@.saved_state(pair.0, pair.1),
                ),
            },
    {
        match answer {
            None => (false, Vec::new()),
            Some((buffer, checksum)) => {
                let state = SavedState { frame: self.current_frame, buffer, checksum };
                let dropped = self.store_checkpoint(state);
                (true, dropped)
            },
        }
    }

    /// Takes the game's answer to the request to load checkpoint `i`, with
    /// which a replay begins. Where the game has loaded, the manager is taken
    /// back to the checkpoint and the later checkpoints, which it drops, are
    /// handed out. Where it has not, the replay is given up with
    /// `GeneralFailure`; the manager is in rollback either way.
    pub fn take_loaded(&mut self, i: usize, loaded: bool) -> (taken: Result<
        Vec<SavedState>,
        GGPOError,
    >)
        requires
            old(self).wf(),
            i < old(self)@.checkpoints.len(),
        ensures
            final(self).wf(),
            taken.is_ok() == loaded,
            match taken {
                Ok(stale) => final(self)@ == old(self)@.rewound(i as int) && stale@ == old(self)@.checkpoints.subrange(i + 1, old(self)@.checkpoints.len() as int),
                Err(e) => e == GGPOError::GeneralFailure && final(self)@ == (SyncView {
                    in_rollback: true,
                    ..old(self)@
                }),
            },
    {
        if loaded {
            Ok(self.rewind(i))
        } else {
            self.in_rollback = true;
            Err(GGPOError::GeneralFailure)
        }
    }

    /// Takes, in a replay, the game's answer to the request to advance by
    /// one frame. Where the game has advanced, the frame counter moves on;
    /// where it has not, nothing changes and the replay is given up with
    /// `GeneralFailure`.
    pub fn take_advanced(&mut self, advanced: bool) -> (taken: Result<(), GGPOError>)
        requires
            old(self).wf(),
        ensures
            final(self).wf(),
            taken == if advanced {
                Ok::<(), GGPOError>(())
            } else {
                Err(GGPOError::GeneralFailure)
            },
            final(self)@ == (SyncView {
                current_frame: if advanced && old(self)@.current_frame < i32::MAX {
                    old(self)@.current_frame + 1
                } else {
                    old(self)@.current_frame
                },
                ..old(self)@
            }),
    {
        if advanced {
            let moved = self.advance_frame();
            Ok(())
        } else {
            Err(GGPOError::GeneralFailure)
        }
    }

    /// Takes, in a replay, the game's answer to the request to save the
    /// current frame. `stale` holds the checkpoints of the first time that
    /// the frames were simulated.
    ///
    /// A state that the game handed over is stored as the checkpoint of the
    /// current frame, unless it diverges: the frame is one of those up to
    /// `same_until` and the state's checksum differs from the one that
    /// `stale` holds for the frame. A state that diverges is not stored, and
    /// the answer is `GeneralFailure`; so it is when the game handed over
    /// nothing. With the answer come the states that the manager lets go of.
    pub fn take_replayed(
        &mut self,
        stale: &Vec<SavedState>,
        same_until: Frame,
        answer: Option<(Bytes, Option<u32>)>,
    ) -> (taken: (Result<(), GGPOError>, Vec<SavedState>))
        requires
            old(self).wf(),
        ensures
            final(self).wf(),
            taken.0 == old(self)@.replayed_result(stale@, same_until as int, answer),
            final(self)@ == if taken.0.is_ok() {
                old(self)@.after_save(answer)
            } else {
                old(self)@
            },
            taken.1@ == old(self)@.replayed_released(stale@, same_until as int, answer),
    {
        match answer {
            None => (Err(GGPOError::GeneralFailure), Vec::new()),
            Some((buffer, checksum)) => {
                let state = SavedState { frame: self.current_frame, buffer, checksum };
                if self.current_frame <= same_until && checksum_contradicts(
                    stale,
                    self.current_frame,
                    checksum,
                ) {
                    let mut released: Vec<SavedState> = Vec::new();
                    released.push(state);
                    assert(released@ =~= seq![state]);
                    (Err(GGPOError::GeneralFailure), released)
                } else {
                    let dropped = self.store_checkpoint(state);
                    (Ok(()), dropped)
                }
            },
        }
    }

    /// Asks the game to save the state of the current frame and stores what
    /// it hands over. Tells whether the game did.
    pub fn save_current_frame<C: GGPOSessionCallbacks>(&mut self, callbacks: &mut C) -> (saved:
        bool)
        requires
            old(self).wf(),
        ensures
            final(self).wf(),
            saved ==> exists|state: SavedState|
                state.frame == old(self)@.current_frame && final(self)@ == (SyncView {
                    checkpoints: #[trigger] old(self)@.checkpoints_with(state),
                    ..old(self)@
                }),
            !saved ==> final(self)@ == old(self)@,
    {
        let answer = callbacks.save_game_state(self.current_frame);
        let (saved, dropped) = self.take_saved(answer);
        proof {
            if saved {
                let pair = answer.unwrap();
                let state = old(self)@.saved_state(pair.0, pair.1);
                assert(state.frame == old(self)@.current_frame && self@ == (SyncView {
                    checkpoints: old(self)@.checkpoints_with(state),
                    ..old(self)@
                }));
            }
        }
        free_all(callbacks, dropped);
        saved
    }

    /// Moves on to the next frame, once the game has simulated the current
    /// one, and has the game save the state in which the next frame starts.
    ///
    /// Fails with `GeneralFailure` at the last frame, where nothing changes,
    /// and when the game does not save, where the frame counter has moved.
    pub fn increment_frame<C: GGPOSessionCallbacks>(&mut self, callbacks: &mut C) -> (done: Result<
        (),
        GGPOError,
    >)
        requires
            old(self).wf(),
        ensures
            final(self).wf(),
            old(self)@.current_frame == i32::MAX ==> done.is_err() && final(self)@ == old(self)@,
            old(self)@.current_frame < i32::MAX ==> final(self)@.current_frame == old(self)@.current_frame + 1,
            done.is_err() ==> done == Err::<(), GGPOError>(GGPOError::GeneralFailure),
            final(self)@ == (SyncView {
                current_frame: final(self)@.current_frame,
                checkpoints: final(self)@.checkpoints,
                ..old(self)@
            }),
            done.is_ok() ==> exists|state: SavedState|
                state.frame == final(self)@.current_frame && final(self)@.checkpoints
                    == #[trigger] old(self)@.checkpoints_with(state),
            done.is_err() ==> final(self)@.checkpoints == old(self)@.checkpoints,
    {
        if !self.advance_frame() {
            return Err(GGPOError::GeneralFailure);
        }
        let ghost moved = self@;
        if self.save_current_frame(callbacks) {
            proof {
                let state = choose|state: SavedState|
                    state.frame == moved.current_frame && self@ == (SyncView {
                        checkpoints: #[trigger] moved.checkpoints_with(state),
                        ..moved
                    });
                assert(old(self)@.checkpoints_with(state) == moved.checkpoints_with(state));
            }
            Ok(())
        } else {
            Err(GGPOError::GeneralFailure)
        }
    }
}

/// Tells whether a checksum taken of `frame` differs from the one that a
/// checkpoint of the same frame in `list` holds. Where either is missing
/// there is nothing to compare.
pub fn checksum_contradicts(list: &Vec<SavedState>, frame: Frame, checksum: Option<u32>) -> (yes:
    bool)
    ensures
        yes == contradicts(list@, frame as int, checksum),
{
    let sum: u32 = match checksum {
        None => {
            return false;
        },
        Some(sum) => sum,
    };
    let mut i: usize = 0;
    while i < list.len()
        invariant
            i <= list.len(),
            checksum == Some(sum),
            !contradicts(list@.subrange(0, i as int), frame as int, checksum),
        decreases list.len() - i,
    {
        if list[i].frame == frame {
            match list[i].checksum {
                Some(other) => {
                    if other != sum {
                        assert(list@[i as int].frame == frame);
                        return true;
                    }
                },
                None => {},
            }
        }
        i += 1;
        proof {
            let shorter = list@.subrange(0, i - 1);
            let longer = list@.subrange(0, i as int);
            if contradicts(longer, frame as int, checksum) {
                let w = choose|w: int|
                    0 <= w < longer.len() && (#[trigger] longer[w]).frame == frame
                        && longer[w].checksum.is_some() && checksum.is_some()
                        && longer[w].checksum != checksum;
                if w < i - 1 {
                    assert(shorter[w] == longer[w]);
                }
            }
        }
    }
    assert(list@.subrange(0, list.len() as int) =~= list@);
    false
}

/// Handing out an input leaves the confirmed inputs, and with them what
/// every frame resolves to, as they were.
pub proof fn lemma_replay_keeps_confirmed(queues: Seq<InputQueueView>, from: int, to: int)
    ensures
        replay(queues, from, to).len() == queues.len(),
        forall|p: int|
            0 <= p < queues.len() ==> {
                let q = #[trigger] replay(queues, from, to)[p];
                &&& q.confirmed == queues[p].confirmed
                &&& q.input_size == queues[p].input_size
                &&& q.first_incorrect == queues[p].first_incorrect
                &&& forall|f: int| q.resolve(f) == queues[p].resolve(f)
            },
    decreases to - from,
{
    if from < to {
        lemma_replay_keeps_confirmed(queues, from, to - 1);
    }
}

impl Sync {
    /// Replays the simulation from checkpoint `i` up to the current frame.
    ///
    /// The game is made to load the checkpoint, and for every frame from the
    /// checkpoint's up to the current one it is handed the inputs that the
    /// frame resolves to, advances, and saves the state of the frame that
    /// follows. The answer is the number of frames replayed.
    ///
    /// The states of the frames up to `same_until` are expected to come out as
    /// they did the first time: where one comes out with another checksum the
    /// replay is given up. It is also given up when the game fails to load,
    /// advance or save. Every failure is a `GeneralFailure` and leaves the
    /// manager in rollback.
    pub fn replay_from<C: GGPOSessionCallbacks>(
        &mut self,
        callbacks: &mut C,
        i: usize,
        same_until: Frame,
    ) -> (done: Result<usize, GGPOError>)
        requires
            old(self).wf(),
            !old(self)@.in_rollback,
            i < old(self)@.checkpoints.len(),
        ensures
            final(self).wf(),
            match done {
                Ok(steps) => {
                    &&& steps == old(self)@.current_frame - old(self)@.checkpoints[i as int].frame
                    &&& final(self)@ == (SyncView {
                        queues: old(self)@.replayed_queues(i as int),
                        checkpoints: final(self)@.checkpoints,
                        ..old(self)@
                    })
                    &&& final(self)@.first_incorrect() == NULL_FRAME
                },
                Err(e) => e == GGPOError::GeneralFailure && final(self)@.in_rollback,
            },
            final(self)@ == (SyncView {
                queues: final(self)@.queues,
                current_frame: final(self)@.current_frame,
                checkpoints: final(self)@.checkpoints,
                in_rollback: final(self)@.in_rollback,
                ..old(self)@
            }),
            final(self)@.queues.len() == old(self)@.queues.len(),
            forall|p: int|
                0 <= p < old(self)@.queues.len() ==> (#[trigger] final(self)@.queues[p]).confirmed
                    == old(self)@.queues[p].confirmed,
    {
        let goal = self.current_frame;
        let length = buffer_len(&self.checkpoints[i].buffer);
        let loaded = callbacks.load_game_state(&self.checkpoints[i].buffer, length);
        let stale = match self.take_loaded(i, loaded) {
            Err(e) => {
                return Err(e);
            },
            Ok(stale) => stale,
        };
        let start = self.current_frame;
        let ghost base = self@;
        let ghost handed = Seq::<Seq<Seq<u8>>>::empty();
        proof {
            assert forall|p: int| 0 <= p < base.queues.len() implies (
            #[trigger] base.queues[p]).confirmed == old(self)@.queues[p].confirmed by {}
        }
        let mut steps: usize = 0;
        while self.current_frame < goal
            invariant
                self.wf(),
                base.wf(),
                base == old(self)@.rewound(i as int),
                !old(self)@.in_rollback,
                i < old(self)@.checkpoints.len(),
                base.in_rollback,
                base.queues.len() == old(self)@.queues.len(),
                forall|p: int|
                    0 <= p < base.queues.len() ==> (#[trigger] base.queues[p]).confirmed == old(self)@.queues[p].confirmed,
                start == base.current_frame,
                goal == old(self)@.current_frame,
                start <= self@.current_frame <= goal,
                steps == self@.current_frame - start,
                self@ == (SyncView {
                    queues: replay(base.queues, start as int, self@.current_frame),
                    current_frame: self@.current_frame,
                    checkpoints: self@.checkpoints,
                    ..base
                }),
                handed == old(self)@.replay_inputs(i as int).subrange(0, steps as int),
            decreases goal - self.current_frame,
        {
            let (inputs, flags) = self.synchronize_input();
            proof {
                let here = self@.current_frame;
                assert(crate::input_queue::rows(inputs@) == old(self)@.replay_inputs(i as int)[here
                    - start]) by {
                    let a = (SyncView {
                        queues: replay(base.queues, start as int, here),
                        ..old(self)@
                    });
                    assert(a.resolve_all(here) =~= crate::input_queue::rows(inputs@));
                }
                handed = handed.push(crate::input_queue::rows(inputs@));
                assert(handed =~= old(self)@.replay_inputs(i as int).subrange(0, steps + 1));
            }
            let advanced = callbacks.advance_frame(&inputs, flags);
            match self.take_advanced(advanced) {
                Err(e) => {
                    proof {
                        lemma_replay_keeps_confirmed(
                            base.queues,
                            start as int,
                            self@.current_frame + 1,
                        );
                    }
                    free_all(callbacks, stale);
                    return Err(e);
                },
                Ok(_) => {},
            }
            proof {
                lemma_replay_keeps_confirmed(base.queues, start as int, self@.current_frame);
            }
            let answer = callbacks.save_game_state(self.current_frame);
            let (taken, released) = self.take_replayed(&stale, same_until, answer);
            free_all(callbacks, released);
            match taken {
                Err(e) => {
                    free_all(callbacks, stale);
                    return Err(e);
                },
                Ok(_) => {},
            }
            steps += 1;
        }
        free_all(callbacks, stale);
        self.finish_rollback();
        proof {
            lemma_replay_keeps_confirmed(base.queues, start as int, goal as int);
            assert forall|p: int| 0 <= p < self@.queues.len() implies (
            #[trigger] self@.queues[p]).first_incorrect == NULL_FRAME by {
                assert(replay(base.queues, start as int, goal as int)[p].first_incorrect
                    == base.queues[p].first_incorrect);
            }
            lemma_none_incorrect(self@, self@.queues.len() as int);
        }
        Ok(steps)
    }

    /// Replays the simulation where a guess has proved wrong.
    ///
    /// With no frame to correct this does nothing and answers `Ok(0)`.
    /// Otherwise the simulation is replayed from the newest checkpoint that
    /// is not after the first incorrect frame (see [`Sync::replay_from`]);
    /// the answer is the number of frames replayed.
    ///
    /// The replay is given up with `GeneralFailure`, and the manager stays in
    /// rollback, when no checkpoint reaches back far enough and when the game
    /// fails to load, advance or save. Called in rollback it answers
    /// `InRollback`.
    pub fn rollback<C: GGPOSessionCallbacks>(&mut self, callbacks: &mut C) -> (done: Result<
        usize,
        GGPOError,
    >)
        requires
            old(self).wf(),
        ensures
            final(self).wf(),
            old(self)@.in_rollback ==> done == Err::<usize, GGPOError>(GGPOError::InRollback)
                && final(self)@ == old(self)@ && *final(callbacks) == *old(callbacks),
            !old(self)@.in_rollback && old(self)@.first_incorrect() == NULL_FRAME ==> done == Ok::<
                usize,
                GGPOError,
            >(0) && final(self)@ == old(self)@ && *final(callbacks) == *old(callbacks),
            !old(self)@.in_rollback && old(self)@.first_incorrect() != NULL_FRAME && old(self)@.rollback_checkpoint() < 0 ==> done == Err::<usize, GGPOError>(
                GGPOError::GeneralFailure,
            ),
            !old(self)@.in_rollback && done.is_err() ==> done == Err::<usize, GGPOError>(
                GGPOError::GeneralFailure,
            ) && final(self)@.in_rollback,
            !old(self)@.in_rollback && old(self)@.first_incorrect() != NULL_FRAME ==> match done {
                Ok(steps) => {
                    let i = old(self)@.rollback_checkpoint();
                    &&& 0 <= i < old(self)@.checkpoints.len()
                    &&& old(self)@.checkpoints[i].frame <= old(self)@.first_incorrect()
                    &&& steps == old(self)@.current_frame - old(self)@.checkpoints[i].frame
                    &&& final(self)@ == (SyncView {
                        queues: old(self)@.replayed_queues(i),
                        checkpoints: final(self)@.checkpoints,
                        ..old(self)@
                    })
                    &&& final(self)@.first_incorrect() == NULL_FRAME
                },
                Err(_) => true,
            },
            final(self)@ == (SyncView {
                queues: final(self)@.queues,
                current_frame: final(self)@.current_frame,
                checkpoints: final(self)@.checkpoints,
                in_rollback: final(self)@.in_rollback,
                ..old(self)@
            }),
            final(self)@.queues.len() == old(self)@.queues.len(),
            forall|p: int|
                0 <= p < old(self)@.queues.len() ==> (#[trigger] final(self)@.queues[p]).confirmed
                    == old(self)@.queues[p].confirmed,
    {
        if self.in_rollback {
            return Err(GGPOError::InRollback);
        }
        let first = self.first_incorrect_frame();
        if first == NULL_FRAME {
            return Ok(0);
        }
        match self.find_checkpoint(first) {
            None => {
                self.in_rollback = true;
                Err(GGPOError::GeneralFailure)
            },
            Some(i) => self.replay_from(callbacks, i, first),
        }
    }

    /// Checks that the game is deterministic: replays the last frames from
    /// the newest checkpoint that lies at least `frames` before the current
    /// frame, with the inputs that the frames resolve to, and expects every
    /// state to come out with the checksum that it had the first time.
    ///
    /// Answers the number of frames replayed; `Ok(0)`, with nothing done,
    /// when no checkpoint lies that far back. A state that comes out
    /// otherwise, or a game that fails to load, advance or save, gives
    /// `GeneralFailure` and leaves the manager in rollback. While a replay is
    /// under way, or a frame waits to be corrected, the answer is
    /// `InRollback` and nothing is done.
    pub fn check_determinism<C: GGPOSessionCallbacks>(&mut self, callbacks: &mut C, frames: usize) -> (done:
        Result<usize, GGPOError>)
        requires
            old(self).wf(),
        ensures
            final(self).wf(),
            old(self)@.in_rollback || old(self)@.first_incorrect() != NULL_FRAME ==> done == Err::<
                usize,
                GGPOError,
            >(GGPOError::InRollback) && final(self)@ == old(self)@ && *final(callbacks) == *old(
                callbacks,
            ),
            !old(self)@.in_rollback && old(self)@.first_incorrect() == NULL_FRAME ==> {
                let back = old(self)@.current_frame - frames;
                let i = newest_at_or_before(old(self)@.checkpoints, back);
                match done {
                    Ok(steps) => if back < 0 || i < 0 {
                        steps == 0 && final(self)@ == old(self)@ && *final(callbacks) == *old(
                            callbacks,
                        )
                    } else {
                        &&& i < old(self)@.checkpoints.len()
                        &&& steps == old(self)@.current_frame - old(self)@.checkpoints[i].frame
                        &&& final(self)@ == (SyncView {
                            queues: old(self)@.replayed_queues(i),
                            checkpoints: final(self)@.checkpoints,
                            ..old(self)@
                        })
                    },
                    Err(e) => back >= 0 && i >= 0 && e == GGPOError::GeneralFailure && final(self)@.in_rollback,
                }
            },
            final(self)@ == (SyncView {
                queues: final(self)@.queues,
                current_frame: final(self)@.current_frame,
                checkpoints: final(self)@.checkpoints,
                in_rollback: final(self)@.in_rollback,
                ..old(self)@
            }),
            done.is_err() && done != Err::<usize, GGPOError>(GGPOError::InRollback)
                ==> final(self)@.in_rollback,
            final(self)@.queues.len() == old(self)@.queues.len(),
            forall|p: int|
                0 <= p < old(self)@.queues.len() ==> (#[trigger] final(self)@.queues[p]).confirmed
                    == old(self)@.queues[p].confirmed,
    {
        if self.in_rollback {
            return Err(GGPOError::InRollback);
        }
        if self.first_incorrect_frame() != NULL_FRAME {
            return Err(GGPOError::InRollback);
        }
        let here = self.current_frame;
        if frames > here as usize {
            return Ok(0);
        }
        let back: Frame = here - frames as Frame;
        match self.find_checkpoint(back) {
            None => Ok(0),
            Some(i) => self.replay_from(callbacks, i, here),
        }
    }
}

/// The state that a game reaches from `state` when it is advanced once with
/// each set of inputs in turn, `step` being what one advance does.
pub open spec fn simulate<S>(
    step: spec_fn(S, Seq<Seq<u8>>) -> S,
    state: S,
    inputs: Seq<Seq<Seq<u8>>>,
) -> S
    decreases inputs.len(),
{
    if inputs.len() == 0 {
        state
    } else {
        step(simulate(step, state, inputs.drop_last()), inputs.last())
    }
}

/// The lowest confirmed watermark is a lower bound for every awaited player
/// and is the watermark of one of them, unless there is none.
pub proof fn lemma_min_confirmed(v: SyncView, n: int)
    requires
        v.wf(),
        0 <= n <= v.queues.len(),
    ensures
        forall|p: int|
            0 <= p < n && v.awaited(p) ==> v.min_confirmed_among(n)
                <= (#[trigger] v.queues[p]).last_confirmed(),
        (exists|p: int|
            0 <= p < n && v.awaited(p) && v.min_confirmed_among(n)
                == (#[trigger] v.queues[p]).last_confirmed()) || (v.min_confirmed_among(n)
            == i32::MAX && forall|p: int| 0 <= p < n ==> !v.awaited(p)),
    decreases n,
{
    if n > 0 {
        lemma_min_confirmed(v, n - 1);
        let rest = v.min_confirmed_among(n - 1);
        if v.awaited(n - 1) && v.queues[n - 1].last_confirmed() < rest {
            assert(v.min_confirmed_among(n) == v.queues[n - 1].last_confirmed());
        } else if rest == i32::MAX && (forall|p: int| 0 <= p < n - 1 ==> !v.awaited(p)) {
            if v.awaited(n - 1) {
                assert(v.queues[n - 1].wf());
                assert(v.queues[n - 1].last_confirmed() == i32::MAX);
            }
        } else {
            let w = choose|p: int|
                0 <= p < n - 1 && v.awaited(p) && v.min_confirmed_among(n - 1)
                    == (#[trigger] v.queues[p]).last_confirmed();
            assert(0 <= w < n && v.awaited(w) && v.min_confirmed_among(n)
                == v.queues[w].last_confirmed());
        }
    }
}

/// A local input that could otherwise be taken is refused for the prediction
/// threshold exactly when the current frame is more than the prediction
/// window ahead of the lowest confirmed watermark among the remote players
/// that still take part.
pub proof fn lemma_prediction_bound(v: SyncView, p: int, bits: Seq<u8>)
    requires
        v.wf(),
        !v.rolling_back(),
        0 <= p < v.queues.len(),
        !v.slots[p].remote,
        bits.len() == v.input_size,
    ensures
        v.local_input_result(p, bits) == Err::<Frame, GGPOError>(GGPOError::PredictionThreshold)
            <==> v.current_frame - v.min_confirmed() > v.prediction_window,
        v.local_input_result(p, bits) == Err::<Frame, GGPOError>(GGPOError::PredictionThreshold)
            <==> exists|r: int|
            v.awaited(r) && v.current_frame - (#[trigger] v.queues[r]).last_confirmed()
                > v.prediction_window,
{
    lemma_min_confirmed(v, v.queues.len() as int);
}

/// No step of the manager lowers the confirmed watermark of any player.
pub proof fn lemma_confirmed_never_decreases(
    v: SyncView,
    p: int,
    frame: int,
    bits: Seq<u8>,
    i: int,
    q: int,
)
    requires
        v.wf(),
        0 <= q < v.queues.len(),
    ensures
        v.after_local_input(p, bits).queues[q].last_confirmed() >= v.queues[q].last_confirmed(),
        v.after_remote_input(p, frame, bits).queues[q].last_confirmed()
            >= v.queues[q].last_confirmed(),
        v.after_synchronize().queues[q].last_confirmed() == v.queues[q].last_confirmed(),
        v.rewound(i).queues[q].last_confirmed() == v.queues[q].last_confirmed(),
        v.replayed_queues(i)[q].last_confirmed() == v.queues[q].last_confirmed(),
{
    if 0 <= p < v.queues.len() {
        lemma_pad_extends(v.queues[p], v.target_frame(p));
    }
    lemma_replay_keeps_confirmed(
        v.rewound(i).queues,
        v.checkpoints[i].frame as int,
        v.current_frame,
    );
}

/// At every step of a replay the game is handed what the frame resolves to
/// in the histories as they stood when the replay began: the confirmed input
/// where there is one, whatever had been guessed for the frame before.
pub proof fn lemma_replay_inputs(v: SyncView, i: int, k: int)
    requires
        v.wf(),
        0 <= i < v.checkpoints.len(),
        0 <= k < v.current_frame - v.checkpoints[i].frame,
    ensures
        v.replay_inputs(i).len() == v.current_frame - v.checkpoints[i].frame,
        v.replay_inputs(i)[k] == v.resolve_all(v.checkpoints[i].frame + k),
        forall|p: int|
            0 <= p < v.queues.len() && v.checkpoints[i].frame + k < v.queues[p].confirmed.len()
                ==> #[trigger] v.replay_inputs(i)[k][p] == v.queues[p].confirmed[v.checkpoints[i].frame
                + k],
{
    let start = v.checkpoints[i].frame as int;
    lemma_replay_keeps_confirmed(v.rewound(i).queues, start, start + k);
    assert(v.replay_inputs(i)[k] =~= v.resolve_all(start + k));
}

/// A replay starts at a checkpoint that is not after the first incorrect
/// frame, runs through the current frame, and simulates the first incorrect
/// frame with the input that was confirmed for it.
pub proof fn lemma_rollback_corrects(v: SyncView, p: int)
    requires
        v.wf(),
        0 <= p < v.queues.len(),
        v.queues[p].first_incorrect != NULL_FRAME,
        v.first_incorrect() == v.queues[p].first_incorrect,
        v.first_incorrect() < v.current_frame,
        v.rollback_checkpoint() >= 0,
    ensures
        ({
            let i = v.rollback_checkpoint();
            let first = v.first_incorrect();
            let start = v.checkpoints[i].frame as int;
            &&& i < v.checkpoints.len()
            &&& start <= first
            &&& v.replay_inputs(i).len() == v.current_frame - start
            &&& v.replay_inputs(i)[first - start][p] == v.queues[p].confirmed[first]
        }),
{
    lemma_newest(v.checkpoints, v.first_incorrect());
    let i = v.rollback_checkpoint();
    lemma_replay_inputs(v, i, v.first_incorrect() - v.checkpoints[i].frame);
}

/// The newest checkpoint that is not after `frame` lies in the list and is
/// not after `frame`; if there is none, every checkpoint is after `frame`.
pub proof fn lemma_newest(list: Seq<SavedState>, frame: int)
    ensures
        -1 <= newest_at_or_before(list, frame) < list.len(),
        newest_at_or_before(list, frame) >= 0 ==> list[newest_at_or_before(list, frame)].frame
            <= frame,
        forall|j: int|
            newest_at_or_before(list, frame) < j < list.len() ==> (#[trigger] list[j]).frame
                > frame,
    decreases list.len(),
{
    if list.len() > 0 && list.last().frame > frame {
        lemma_newest(list.drop_last(), frame);
        assert forall|j: int| newest_at_or_before(list, frame) < j < list.len() implies (
        #[trigger] list[j]).frame > frame by {
            if j < list.len() - 1 {
                assert(list.drop_last()[j] == list[j]);
            }
        }
    }
}

/// Two replays over histories that hold the same confirmed inputs, from
/// checkpoints of the same frame up to the same frame, hand the game the
/// same inputs frame by frame, whatever had been guessed in either. A game
/// that advances deterministically therefore reaches the same state, with
/// the same checksum, both times; and a replay after a wrong guess reaches
/// the state of a run in which the confirmed input was known from the start.
pub proof fn lemma_replay_deterministic<S>(
    a: SyncView,
    i: int,
    b: SyncView,
    j: int,
    step: spec_fn(S, Seq<Seq<u8>>) -> S,
    checksum: spec_fn(S) -> u32,
    state: S,
)
    requires
        a.wf(),
        b.wf(),
        0 <= i < a.checkpoints.len(),
        0 <= j < b.checkpoints.len(),
        a.checkpoints[i].frame == b.checkpoints[j].frame,
        a.current_frame == b.current_frame,
        a.queues.len() == b.queues.len(),
        forall|p: int|
            0 <= p < a.queues.len() ==> (#[trigger] a.queues[p]).confirmed == b.queues[p].confirmed,
        a.input_size == b.input_size,
    ensures
        a.replay_inputs(i) == b.replay_inputs(j),
        simulate(step, state, a.replay_inputs(i)) == simulate(step, state, b.replay_inputs(j)),
        checksum(simulate(step, state, a.replay_inputs(i))) == checksum(
            simulate(step, state, b.replay_inputs(j)),
        ),
{
    let start = a.checkpoints[i].frame as int;
    assert forall|k: int| 0 <= k < a.current_frame - start implies a.replay_inputs(i)[k]
        == b.replay_inputs(j)[k] by {
        lemma_replay_inputs(a, i, k);
        lemma_replay_inputs(b, j, k);
        assert(a.resolve_all(start + k) =~= b.resolve_all(start + k));
    }
    assert(a.replay_inputs(i) =~= b.replay_inputs(j));
}

/// What a local input is answered, and what it does to the histories, does
/// not depend on the checkpoints.
pub proof fn lemma_checkpoints_apart(v: SyncView, checkpoints: Seq<SavedState>, p: int, bits: Seq<u8>)
    ensures
        ({
            let w = SyncView { checkpoints, ..v };
            &&& w.local_input_result(p, bits) == v.local_input_result(p, bits)
            &&& w.after_local_input(p, bits) == (SyncView {
                checkpoints,
                ..v.after_local_input(p, bits)
            })
        }),
{
    let w = SyncView { checkpoints, ..v };
    lemma_min_confirmed_same(v, w, v.queues.len() as int);
    lemma_first_incorrect_same(v, w, v.queues.len() as int);
}

proof fn lemma_first_incorrect_same(a: SyncView, b: SyncView, n: int)
    requires
        a.queues == b.queues,
    ensures
        a.first_incorrect_among(n) == b.first_incorrect_among(n),
    decreases n,
{
    if n > 0 {
        lemma_first_incorrect_same(a, b, n - 1);
    }
}

proof fn lemma_min_confirmed_same(a: SyncView, b: SyncView, n: int)
    requires
        a.queues == b.queues,
        a.slots == b.slots,
    ensures
        a.min_confirmed_among(n) == b.min_confirmed_among(n),
    decreases n,
{
    if n > 0 {
        lemma_min_confirmed_same(a, b, n - 1);
    }
}

proof fn lemma_first_incorrect_kept(a: SyncView, b: SyncView, n: int)
    requires
        a.queues.len() == b.queues.len(),
        forall|q: int|
            0 <= q < a.queues.len() ==> (#[trigger] b.queues[q]).first_incorrect
                == a.queues[q].first_incorrect,
        n <= a.queues.len(),
    ensures
        a.first_incorrect_among(n) == b.first_incorrect_among(n),
    decreases n,
{
    if n > 0 {
        lemma_first_incorrect_kept(a, b, n - 1);
    }
}

proof fn lemma_min_confirmed_kept(a: SyncView, b: SyncView, n: int)
    requires
        a.queues.len() == b.queues.len(),
        a.slots == b.slots,
        forall|q: int|
            0 <= q < a.queues.len() && a.slots[q].remote ==> (#[trigger] b.queues[q]).confirmed
                == a.queues[q].confirmed,
        n <= a.queues.len(),
    ensures
        a.min_confirmed_among(n) == b.min_confirmed_among(n),
    decreases n,
{
    if n > 0 {
        lemma_min_confirmed_kept(a, b, n - 1);
    }
}

/// Within the prediction window a frame is played without a block: the
/// input of a local player that is in step is taken for the current frame,
/// and after the frame the player is in step again, one frame on, with the
/// confirmed watermarks of the remote players where they were.
pub proof fn lemma_played(v: SyncView, p: int, bits: Seq<u8>)
    requires
        v.in_step(p),
        bits.len() == v.input_size,
        v.current_frame - v.min_confirmed() <= v.prediction_window,
        0 <= v.current_frame < i32::MAX,
    ensures
        v.local_input_result(p, bits) == Ok::<Frame, GGPOError>(v.current_frame as Frame),
        v.played(p, bits).in_step(p),
        v.played(p, bits).current_frame == v.current_frame + 1,
        v.played(p, bits).min_confirmed() == v.min_confirmed(),
        v.played(p, bits).prediction_window == v.prediction_window,
        v.played(p, bits).input_size == v.input_size,
        v.played(p, bits).queues[p].confirmed == v.queues[p].confirmed.push(bits),
{
    let taken = v.after_local_input(p, bits);
    let next = v.played(p, bits);
    assert(v.queues[p].pad(v.target_frame(p)) == v.queues[p]);
    assert(taken.queues[p] == v.queues[p].confirm(bits));
    assert forall|q: int| 0 <= q < v.queues.len() implies (#[trigger] next.queues[q]).first_incorrect
        == v.queues[q].first_incorrect by {
        if q != p {
            assert(taken.queues[q] == v.queues[q]);
        }
    }
    assert forall|q: int|
        0 <= q < v.queues.len() && v.slots[q].remote implies (#[trigger] next.queues[q]).confirmed
        == v.queues[q].confirmed by {
        assert(taken.queues[q] == v.queues[q]);
    }
    lemma_first_incorrect_kept(v, next, v.queues.len() as int);
    lemma_min_confirmed_kept(v, next, v.queues.len() as int);
    assert(next.queues[p] == taken.queues[p]);
}

/// A game that hears nothing of the remote players plays on without a block
/// as long as it stays within the prediction window, and is refused for the
/// prediction threshold at the first frame beyond it. With a window of
/// eight frames and nothing confirmed, frames zero to seven are played and
/// the input of frame eight is refused.
pub proof fn lemma_played_all(v: SyncView, p: int, inputs: Seq<Seq<u8>>, more: Seq<u8>)
    requires
        v.in_step(p),
        forall|k: int| 0 <= k < inputs.len() ==> (#[trigger] inputs[k]).len() == v.input_size,
        more.len() == v.input_size,
        v.current_frame + inputs.len() - 1 - v.min_confirmed() <= v.prediction_window,
        0 <= v.current_frame,
        v.current_frame + inputs.len() <= i32::MAX,
    ensures
        forall|k: int|
            0 <= k < inputs.len() ==> v.played_all(p, #[trigger] inputs.subrange(0, k)).local_input_result(
                p,
                inputs[k],
            ) == Ok::<Frame, GGPOError>((v.current_frame + k) as Frame),
        v.played_all(p, inputs).in_step(p),
        v.played_all(p, inputs).current_frame == v.current_frame + inputs.len(),
        v.played_all(p, inputs).min_confirmed() == v.min_confirmed(),
        v.played_all(p, inputs).prediction_window == v.prediction_window,
        v.played_all(p, inputs).input_size == v.input_size,
        v.current_frame + inputs.len() - v.min_confirmed() > v.prediction_window ==> v.played_all(
            p,
            inputs,
        ).local_input_result(p, more) == Err::<Frame, GGPOError>(GGPOError::PredictionThreshold),
        v.current_frame + inputs.len() - v.min_confirmed() <= v.prediction_window
            && v.current_frame + inputs.len() < i32::MAX ==> v.played_all(
            p,
            inputs,
        ).local_input_result(p, more) == Ok::<Frame, GGPOError>(
            (v.current_frame + inputs.len()) as Frame,
        ),
    decreases inputs.len(),
{
    if inputs.len() > 0 {
        let head = inputs.drop_last();
        let mid = v.played_all(p, head);
        assert forall|k: int| 0 <= k < head.len() implies (#[trigger] head[k]).len()
            == v.input_size by {
            assert(head[k] == inputs[k]);
        }
        lemma_played_all(v, p, head, inputs.last());
        lemma_played(mid, p, inputs.last());
        assert forall|k: int| 0 <= k < inputs.len() implies v.played_all(
            p,
            #[trigger] inputs.subrange(0, k),
        ).local_input_result(p, inputs[k]) == Ok::<Frame, GGPOError>(
            (v.current_frame + k) as Frame,
        ) by {
            if k < head.len() {
                assert(head.subrange(0, k) =~= inputs.subrange(0, k));
                assert(head[k] == inputs[k]);
            } else {
                assert(inputs.subrange(0, k) =~= head);
            }
        }
    }
    let end = v.played_all(p, inputs);
    if end.current_frame - end.min_confirmed() <= end.prediction_window && end.current_frame
        < i32::MAX {
        lemma_played(end, p, more);
    }
}

/// A block does not outlast the arrival of the input that was missing: once
/// the confirmed inputs of the remote players are within the prediction
/// window again, and the input that arrived was as guessed so that no replay
/// is due, the input of a local player that is in step is taken.
pub proof fn lemma_block_ends(
    v: SyncView,
    p: int,
    r: int,
    frame: int,
    arrived: Seq<u8>,
    bits: Seq<u8>,
)
    requires
        v.in_step(p),
        bits.len() == v.input_size,
        0 <= v.current_frame < i32::MAX,
        !v.after_remote_input(r, frame, arrived).rolling_back(),
        v.current_frame - v.after_remote_input(r, frame, arrived).min_confirmed()
            <= v.prediction_window,
    ensures
        v.after_remote_input(r, frame, arrived).local_input_result(p, bits) == Ok::<
            Frame,
            GGPOError,
        >(v.current_frame as Frame),
{
    let w = v.after_remote_input(r, frame, arrived);
    assert(w.queues[p] == v.queues[p]);
    lemma_played(w, p, bits);
}

} // verus!
