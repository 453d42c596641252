//! The input history of one player.
//!
//! A history holds the inputs that are known for certain, one for every frame
//! from zero up to the confirmed watermark, and the guesses that were handed
//! out for the frames after it. A guess repeats the most recent known input.
//! When a confirmed input arrives for a frame that was guessed differently,
//! the history remembers the frame: the simulation has to be replayed from
//! there.

use crate::game_input::{blank_bits, copy_bits, make_blank, same_bits, Frame, NULL_FRAME};
use vstd::prelude::*;

verus! {

/// The number of frames that a history can hold: frames run from zero to the
/// largest `Frame`.
pub const FRAME_LIMIT: usize = 0x8000_0000;

/// Mathematical value of an [`InputQueue`].
pub struct InputQueueView {
    /// Length in bytes of every input.
    pub input_size: nat,
    /// `confirmed[f]` is the input of frame `f`.
    pub confirmed: Seq<Seq<u8>>,
    /// `predicted[k]` is the guess handed out for frame `confirmed.len() + k`.
    pub predicted: Seq<Seq<u8>>,
    /// The lowest frame that was confirmed otherwise than guessed since the
    /// last replay, or `NULL_FRAME`.
    pub first_incorrect: int,
}

impl InputQueueView {
    pub open spec fn wf(self) -> bool {
        &&& forall|i: int| 0 <= i < self.confirmed.len() ==> (#[trigger] self.confirmed[i]).len()
            == self.input_size
        &&& forall|i: int| 0 <= i < self.predicted.len() ==> (#[trigger] self.predicted[i]).len()
            == self.input_size
        &&& self.confirmed.len() + self.predicted.len() <= FRAME_LIMIT
        &&& self.predicted.len() <= usize::MAX
        &&& (self.first_incorrect == NULL_FRAME || 0 <= self.first_incorrect
            < self.confirmed.len())
    }

    /// The highest frame whose input is known for certain, `NULL_FRAME` if
    /// none is. Every frame up to it is known too.
    pub open spec fn last_confirmed(self) -> int {
        self.confirmed.len() - 1
    }

    /// The highest frame for which an input was handed out or confirmed.
    pub open spec fn last_predicted(self) -> int {
        self.confirmed.len() + self.predicted.len() - 1
    }

    /// The most recent known input: what a guess repeats.
    pub open spec fn latest(self) -> Seq<u8> {
        if self.confirmed.len() > 0 {
            self.confirmed.last()
        } else {
            blank_bits(self.input_size)
        }
    }

    /// The input to simulate `frame` with: the confirmed one where it is
    /// known, else the most recent known input repeated.
    pub open spec fn resolve(self, frame: int) -> Seq<u8> {
        if 0 <= frame < self.confirmed.len() {
            self.confirmed[frame]
        } else {
            self.latest()
        }
    }

    /// The history after the input of the next frame was confirmed as `bits`.
    pub open spec fn confirm(self, bits: Seq<u8>) -> InputQueueView {
        InputQueueView {
            input_size: self.input_size,
            confirmed: self.confirmed.push(bits),
            predicted: if self.predicted.len() > 0 {
                self.predicted.skip(1)
            } else {
                self.predicted
            },
            first_incorrect: if self.first_incorrect == NULL_FRAME && self.predicted.len() > 0
                && self.predicted[0] != bits {
                self.confirmed.len() as int
            } else {
                self.first_incorrect
            },
        }
    }

    /// The history after an input for `frame` was handed out. A confirmed
    /// frame leaves it as it is. For a later frame the guess is recorded, and
    /// so it is for the frames before it that had none.
    pub open spec fn request(self, frame: int) -> InputQueueView {
        if frame < self.confirmed.len() {
            self
        } else {
            let k = frame - self.confirmed.len();
            let n = if k < self.predicted.len() {
                self.predicted.len()
            } else {
                (k + 1) as nat
            };
            InputQueueView {
                predicted: Seq::new(
                    n,
                    |i: int|
                        if i < self.predicted.len() && i != k {
                            self.predicted[i]
                        } else {
                            self.latest()
                        },
                ),
                ..self
            }
        }
    }

    /// The history with the most recent known input repeated until `target`
    /// is the next frame to confirm.
    pub open spec fn pad(self, target: int) -> InputQueueView
        decreases target - self.confirmed.len(),
    {
        if self.confirmed.len() >= target {
            self
        } else {
            self.confirm(self.latest()).pad(target)
        }
    }

    /// The history after a replay: no frame waits to be corrected.
    pub open spec fn settle(self) -> InputQueueView {
        InputQueueView { first_incorrect: NULL_FRAME as int, ..self }
    }
}

/// The byte strings that a vector of vectors holds.
pub open spec fn rows(v: Seq<Vec<u8>>) -> Seq<Seq<u8>> {
    v.map_values(|b: Vec<u8>| b@)
}

proof fn lemma_rows_push(v: Seq<Vec<u8>>, x: Vec<u8>)
    ensures
        rows(v.push(x)) == rows(v).push(x@),
{
    assert(rows(v.push(x)) =~= rows(v).push(x@));
}

proof fn lemma_rows_skip(v: Seq<Vec<u8>>)
    requires
        v.len() > 0,
    ensures
        rows(v.remove(0)) == rows(v).skip(1),
{
    assert(rows(v.remove(0)) =~= rows(v).skip(1));
}

proof fn lemma_rows_update(v: Seq<Vec<u8>>, k: int, x: Vec<u8>)
    requires
        0 <= k < v.len(),
    ensures
        rows(v.update(k, x)) == rows(v).update(k, x@),
{
    assert(rows(v.update(k, x)) =~= rows(v).update(k, x@));
}

/// The input history of one player.
pub struct InputQueue {
    input_size: usize,
    confirmed: Vec<Vec<u8>>,
    predicted: Vec<Vec<u8>>,
    first_incorrect: Frame,
}

impl View for InputQueue {
    type V = InputQueueView;

    closed spec fn view(&self) -> InputQueueView {
        InputQueueView {
            input_size: self.input_size as nat,
            confirmed: rows(self.confirmed@),
            predicted: rows(self.predicted@),
            first_incorrect: self.first_incorrect as int,
        }
    }
}

impl InputQueue {
    /// Holds of every history that this module hands out.
    pub open spec fn wf(&self) -> bool {
        self@.wf()
    }

    /// An empty history for inputs of `input_size` bytes.
    pub fn new(input_size: usize) -> (q: InputQueue)
        ensures
            q.wf(),
            q@ == (InputQueueView {
                input_size: input_size as nat,
                confirmed: Seq::empty(),
                predicted: Seq::empty(),
                first_incorrect: NULL_FRAME as int,
            }),
    {
        let q = InputQueue {
            input_size,
            confirmed: Vec::new(),
            predicted: Vec::new(),
            first_incorrect: NULL_FRAME,
        };
        assert(q@.confirmed =~= Seq::empty());
        assert(q@.predicted =~= Seq::empty());
        q
    }

    /// Length in bytes of every input of this history.
    pub fn input_size(&self) -> (n: usize)
        ensures
            n == self@.input_size,
    {
        self.input_size
    }

    /// The confirmed watermark.
    pub fn last_confirmed_frame(&self) -> (frame: Frame)
        requires
            self.wf(),
        ensures
            frame == self@.last_confirmed(),
    {
        if self.confirmed.len() == 0 {
            NULL_FRAME
        } else {
            (self.confirmed.len() - 1) as Frame
        }
    }

    /// The predicted watermark.
    pub fn last_predicted_frame(&self) -> (frame: Frame)
        requires
            self.wf(),
        ensures
            frame == self@.last_predicted(),
            frame >= self@.last_confirmed(),
    {
        let n: usize = self.confirmed.len() + self.predicted.len();
        if n == 0 {
            NULL_FRAME
        } else {
            (n - 1) as Frame
        }
    }

    /// The lowest frame that waits to be corrected, or `NULL_FRAME`.
    pub fn first_incorrect_frame(&self) -> (frame: Frame)
        ensures
            frame == self@.first_incorrect,
    {
        self.first_incorrect
    }

    /// The confirmed input of `frame`, if it is known.
    pub fn confirmed_input(&self, frame: Frame) -> (bits: Option<Vec<u8>>)
        requires
            self.wf(),
        ensures
            match bits {
                Some(b) => 0 <= frame < self@.confirmed.len() && b@ == self@.resolve(frame as int),
                None => !(0 <= frame < self@.confirmed.len()),
            },
    {
        if frame < 0 || frame as usize >= self.confirmed.len() {
            None
        } else {
            assert(self@.confirmed[frame as int] == self.confirmed@[frame as int]@);
            Some(copy_bits(&self.confirmed[frame as usize]))
        }
    }

    fn latest_bits(&self) -> (bits: Vec<u8>)
        requires
            self.wf(),
        ensures
            bits@ == self@.latest(),
    {
        let n = self.confirmed.len();
        if n > 0 {
            assert(self@.confirmed.last() == self.confirmed@[n - 1]@);
            copy_bits(&self.confirmed[n - 1])
        } else {
            make_blank(self.input_size)
        }
    }

    /// Records `bits` as the confirmed input of the frame after the confirmed
    /// watermark and returns that frame. Where the frame had been guessed
    /// otherwise, and no earlier frame waits to be corrected, the frame is
    /// remembered as the first incorrect one.
    ///
    /// Refuses, and changes nothing, when `bits` has not the length of this
    /// history's inputs or when the last frame has been confirmed already.
    pub fn confirm(&mut self, bits: &Vec<u8>) -> (stored: Option<Frame>)
        requires
            old(self).wf(),
        ensures
            final(self).wf(),
            final(self)@.last_confirmed() >= old(self)@.last_confirmed(),
            stored.is_some() <==> bits@.len() == old(self)@.input_size && old(self)@.confirmed.len() < FRAME_LIMIT,
            match stored {
                Some(frame) => frame == old(self)@.confirmed.len() && final(self)@ == old(self)@.confirm(bits@),
                None => final(self)@ == old(self)@,
            },
    {
        if bits.len() != self.input_size || self.confirmed.len() >= FRAME_LIMIT {
            return None;
        }
        let frame = self.confirmed.len() as Frame;
        if self.predicted.len() > 0 {
            proof {
                lemma_rows_skip(self.predicted@);
            }
            let guess = self.predicted.remove(0);
            assert(guess@ == old(self)@.predicted[0]);
            if self.first_incorrect == NULL_FRAME && !same_bits(&guess, bits) {
                self.first_incorrect = frame;
            }
        }
        let copy = copy_bits(bits);
        proof {
            lemma_rows_push(self.confirmed@, copy);
        }
        self.confirmed.push(copy);
        proof {
            let goal = old(self)@.confirm(bits@);
            assert(self@.confirmed == goal.confirmed);
            assert(self@.predicted =~= goal.predicted);
            assert(self@.first_incorrect == goal.first_incorrect);
            assert forall|i: int| 0 <= i < self@.predicted.len() implies (
            #[trigger] self@.predicted[i]).len() == self@.input_size by {
                if old(self)@.predicted.len() > 0 {
                    assert(self@.predicted[i] == old(self)@.predicted[i + 1]);
                }
            }
        }
        Some(frame)
    }

    /// Hands out the input to simulate `frame` with, and records it where it
    /// is a guess. For a frame before the first one the most recent known
    /// input is handed out and nothing is recorded.
    pub fn input(&mut self, frame: Frame) -> (bits: Vec<u8>)
        requires
            old(self).wf(),
        ensures
            final(self).wf(),
            bits@ == old(self)@.resolve(frame as int),
            bits@.len() == old(self)@.input_size,
            final(self)@ == old(self)@.request(frame as int),
            final(self)@.last_confirmed() == old(self)@.last_confirmed(),
    {
        if frame < 0 {
            return self.latest_bits();
        }
        let known = self.confirmed.len();
        if (frame as usize) < known {
            assert(self@.confirmed[frame as int] == self.confirmed@[frame as int]@);
            return copy_bits(&self.confirmed[frame as usize]);
        }
        let k: usize = frame as usize - known;
        let ghost goal = old(self)@.request(frame as int);
        while self.predicted.len() <= k
            invariant
                self.wf(),
                self@.input_size == old(self)@.input_size,
                self@.confirmed == old(self)@.confirmed,
                self@.first_incorrect == old(self)@.first_incorrect,
                known == self@.confirmed.len(),
                k == frame - known,
                goal == old(self)@.request(frame as int),
                old(self)@.predicted.len() <= self@.predicted.len() <= goal.predicted.len(),
                forall|i: int|
                    0 <= i < self@.predicted.len() && i != k ==> #[trigger] self@.predicted[i]
                        == goal.predicted[i],
            decreases k + 1 - self.predicted.len(),
        {
            let guess = self.latest_bits();
            proof {
                lemma_rows_push(self.predicted@, guess);
            }
            self.predicted.push(guess);
        }
        let guess = self.latest_bits();
        let bits = copy_bits(&guess);
        proof {
            lemma_rows_update(self.predicted@, k as int, guess);
        }
        self.predicted.set(k, guess);
        proof {
            assert(self@.predicted =~= goal.predicted);
        }
        bits
    }

    /// Repeats the most recent known input until `target` is the next frame
    /// to confirm. Does nothing if it is already, or was passed.
    pub fn extend_to(&mut self, target: usize)
        requires
            old(self).wf(),
            target <= FRAME_LIMIT,
        ensures
            final(self).wf(),
            final(self)@ == old(self)@.pad(target as int),
            final(self)@.confirmed.len() == if old(self)@.confirmed.len() >= target {
                old(self)@.confirmed.len()
            } else {
                target as nat
            },
            final(self)@.input_size == old(self)@.input_size,
    {
        while self.confirmed.len() < target
            invariant
                self.wf(),
                target <= FRAME_LIMIT,
                self@.pad(target as int) == old(self)@.pad(target as int),
                self@.input_size == old(self)@.input_size,
                self@.confirmed.len() >= old(self)@.confirmed.len(),
                old(self)@.confirmed.len() >= target ==> self@.confirmed.len() == old(self)@.confirmed.len(),
                old(self)@.confirmed.len() < target ==> self@.confirmed.len() <= target,
            decreases target - self.confirmed.len(),
        {
            let bits = self.latest_bits();
            let stored = self.confirm(&bits);
        }
    }

    /// Forgets the first incorrect frame, once the simulation was replayed
    /// from it.
    pub fn settle(&mut self)
        requires
            old(self).wf(),
        ensures
            final(self).wf(),
            final(self)@ == old(self)@.settle(),
    {
        self.first_incorrect = NULL_FRAME;
    }
}

/// Repeating the most recent input never takes a confirmed input away, and
/// leaves the inputs that were confirmed before as they were.
pub proof fn lemma_pad_extends(q: InputQueueView, target: int)
    ensures
        q.pad(target).confirmed.len() >= q.confirmed.len(),
        q.pad(target).confirmed.subrange(0, q.confirmed.len() as int) == q.confirmed,
    decreases target - q.confirmed.len(),
{
    if q.confirmed.len() < target {
        let next = q.confirm(q.latest());
        lemma_pad_extends(next, target);
        assert(q.pad(target).confirmed.subrange(0, q.confirmed.len() as int) =~= next.confirmed.subrange(
            0,
            next.confirmed.len() as int,
        ).subrange(0, q.confirmed.len() as int));
        assert(next.confirmed.subrange(0, q.confirmed.len() as int) =~= q.confirmed);
    } else {
        assert(q.confirmed.subrange(0, q.confirmed.len() as int) =~= q.confirmed);
    }
}

/// The confirmed watermark never goes down, and never passes the predicted
/// one: whatever is done to a history, every input that was confirmed stays
/// confirmed.
pub proof fn lemma_watermarks(q: InputQueueView, bits: Seq<u8>, frame: int, target: int)
    requires
        q.wf(),
    ensures
        q.last_confirmed() <= q.last_predicted(),
        q.confirm(bits).last_confirmed() == q.last_confirmed() + 1,
        q.request(frame).last_confirmed() == q.last_confirmed(),
        q.request(frame).last_predicted() >= q.last_predicted(),
        q.settle().last_confirmed() == q.last_confirmed(),
        q.pad(target).last_confirmed() >= q.last_confirmed(),
{
    lemma_pad_extends(q, target);
}

/// An input that is confirmed otherwise than it was guessed marks its frame
/// as the first incorrect one, unless an earlier frame is marked already; an
/// input that is confirmed as guessed, or that was never guessed, marks
/// nothing.
pub proof fn lemma_wrong_guess_is_marked(q: InputQueueView, bits: Seq<u8>)
    requires
        q.wf(),
        q.first_incorrect == NULL_FRAME,
    ensures
        q.predicted.len() > 0 && q.predicted[0] != bits ==> q.confirm(bits).first_incorrect
            == q.confirmed.len(),
        q.predicted.len() == 0 || q.predicted[0] == bits ==> q.confirm(bits).first_incorrect
            == NULL_FRAME,
        q.confirm(bits).resolve(q.confirmed.len() as int) == bits,
{
}

/// What a frame resolves to depends on the confirmed inputs alone, not on
/// what was guessed before.
pub proof fn lemma_resolve_ignores_guesses(a: InputQueueView, b: InputQueueView, frame: int)
    requires
        a.confirmed == b.confirmed,
        a.input_size == b.input_size,
    ensures
        a.resolve(frame) == b.resolve(frame),
{
}

} // verus!
