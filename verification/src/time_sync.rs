//! Keeps the peers' simulations level.
//!
//! Every peer reports how many frames it believes to lag behind the other.
//! From the two views of one link follows how far this side runs ahead. The
//! synchronizer keeps the worst such figure of each tick, smooths the figures
//! over a window of ticks, and when the smoothed figure has stayed beyond a
//! threshold for some ticks it recommends that the game wait, or catch up, by
//! a bounded number of frames. Recommendations are spaced out so that the two
//! sides do not chase each other.

use crate::game_input::Frame;
use vstd::prelude::*;

verus! {

/// The number of ticks over which the skew is smoothed.
pub const FRAME_WINDOW_SIZE: usize = 40;

/// The smoothed skew, in frames, beyond which a correction is considered.
pub const SKEW_THRESHOLD: i32 = 2;

/// The number of ticks in a row that the skew must stay beyond the threshold.
pub const SUSTAINED_TICKS: u32 = 10;

/// The largest correction that is recommended at once, in frames.
pub const MAX_RECOMMENDATION: i32 = 9;

/// The least number of frames between two recommendations.
pub const RECOMMENDATION_INTERVAL: i32 = 240;

/// Mathematical value of a [`TimeSynchronizer`].
pub struct TimeSynchronizerView {
    /// The worst skew of each of the last ticks, oldest first. A sample is
    /// twice the number of frames that this side was ahead.
    pub window: Seq<i64>,
    /// The worst skew reported in the current tick so far.
    pub pending: Option<i64>,
    /// For how many ticks in a row the smoothed skew has been beyond the
    /// threshold.
    pub sustained: u32,
    /// The first frame at which a recommendation may be made again.
    pub quiet_until: Frame,
}

/// The sum of the samples.
pub open spec fn total(samples: Seq<i64>) -> int
    decreases samples.len(),
{
    if samples.len() == 0 {
        0
    } else {
        total(samples.drop_last()) + samples.last()
    }
}

/// Half the mean of the samples, rounded towards zero: the number of frames
/// that this side is ahead (behind, if negative) on average.
pub open spec fn smoothed(samples: Seq<i64>) -> int {
    if samples.len() == 0 {
        0
    } else if total(samples) >= 0 {
        total(samples) / (2 * samples.len() as int)
    } else {
        -((-total(samples)) / (2 * samples.len() as int))
    }
}

/// `x` held within `-bound..=bound`.
pub open spec fn clamped(x: int, bound: int) -> int {
    if x > bound {
        bound
    } else if x < -bound {
        -bound
    } else {
        x
    }
}

impl TimeSynchronizerView {
    pub open spec fn wf(self) -> bool {
        &&& self.window.len() <= FRAME_WINDOW_SIZE
        &&& self.sustained <= SUSTAINED_TICKS
        &&& forall|i: int|
            0 <= i < self.window.len() ==> -0x1_0000_0000 <= (#[trigger] self.window[i])
                <= 0x1_0000_0000
        &&& match self.pending {
            Some(s) => -0x1_0000_0000 <= s <= 0x1_0000_0000,
            None => true,
        }
    }

    /// The skew of one link: by how much more the peer lags behind this side
    /// than this side lags behind the peer.
    pub open spec fn sample(local_behind: i32, remote_behind: i32) -> i64 {
        (remote_behind - local_behind) as i64
    }

    /// The synchronizer after a link reported: the worst skew of the tick is
    /// kept.
    pub open spec fn report(self, local_behind: i32, remote_behind: i32) -> TimeSynchronizerView {
        let s = Self::sample(local_behind, remote_behind);
        TimeSynchronizerView {
            pending: match self.pending {
                Some(worst) if worst >= s => Some(worst),
                _ => Some(s),
            },
            ..self
        }
    }

    /// The window after the tick's sample, if there is one, has entered it
    /// and the oldest sample has left a full window.
    pub open spec fn next_window(self) -> Seq<i64> {
        match self.pending {
            None => self.window,
            Some(s) => if self.window.len() >= FRAME_WINDOW_SIZE {
                self.window.skip(1).push(s)
            } else {
                self.window.push(s)
            },
        }
    }

    /// The smoothed skew at the end of the tick lies beyond the threshold.
    pub open spec fn skewed(self) -> bool {
        smoothed(self.next_window()) > SKEW_THRESHOLD || smoothed(self.next_window())
            < -SKEW_THRESHOLD
    }

    /// For how many ticks in a row, this one included, the smoothed skew has
    /// been beyond the threshold; the count stops at `SUSTAINED_TICKS`.
    pub open spec fn next_sustained(self) -> u32 {
        if !self.skewed() {
            0
        } else if self.sustained < SUSTAINED_TICKS {
            (self.sustained + 1) as u32
        } else {
            self.sustained
        }
    }

    /// What is recommended at the end of the tick in which `frame` was
    /// simulated: the smoothed skew, bounded, once it has stayed beyond the
    /// threshold long enough and the last recommendation is old enough.
    pub open spec fn recommendation(self, frame: Frame) -> Option<i32> {
        if self.next_sustained() >= SUSTAINED_TICKS && frame >= self.quiet_until {
            Some(clamped(smoothed(self.next_window()), MAX_RECOMMENDATION as int) as i32)
        } else {
            None
        }
    }

    /// The synchronizer after the tick in which `frame` was simulated.
    pub open spec fn end_tick(self, frame: Frame) -> TimeSynchronizerView {
        if self.recommendation(frame).is_some() {
            TimeSynchronizerView {
                window: self.next_window(),
                pending: None,
                sustained: 0,
                quiet_until: if frame <= i32::MAX - RECOMMENDATION_INTERVAL {
                    (frame + RECOMMENDATION_INTERVAL) as Frame
                } else {
                    i32::MAX
                },
            }
        } else {
            TimeSynchronizerView {
                window: self.next_window(),
                pending: None,
                sustained: self.next_sustained(),
                quiet_until: self.quiet_until,
            }
        }
    }
}

/// Estimates how far this side runs ahead of the slowest peer and says when
/// the game should wait.
pub struct TimeSynchronizer {
    window: Vec<i64>,
    pending: Option<i64>,
    sustained: u32,
    quiet_until: Frame,
}

impl View for TimeSynchronizer {
    type V = TimeSynchronizerView;

    closed spec fn view(&self) -> TimeSynchronizerView {
        TimeSynchronizerView {
            window: self.window@,
            pending: self.pending,
            sustained: self.sustained,
            quiet_until: self.quiet_until,
        }
    }
}

proof fn lemma_total_bounds(samples: Seq<i64>)
    requires
        forall|i: int|
            0 <= i < samples.len() ==> -0x1_0000_0000 <= (#[trigger] samples[i]) <= 0x1_0000_0000,
    ensures
        -0x1_0000_0000 * samples.len() <= total(samples) <= 0x1_0000_0000 * samples.len(),
    decreases samples.len(),
{
    if samples.len() > 0 {
        let head = samples.drop_last();
        assert forall|i: int| 0 <= i < head.len() implies -0x1_0000_0000 <= (#[trigger] head[i])
            <= 0x1_0000_0000 by {
            assert(head[i] == samples[i]);
        }
        lemma_total_bounds(head);
    }
}

impl TimeSynchronizer {
    /// Holds of every synchronizer that this module hands out.
    pub open spec fn wf(&self) -> bool {
        self@.wf()
    }

    /// A synchronizer that has heard nothing yet.
    pub fn new() -> (made: TimeSynchronizer)
        ensures
            made.wf(),
            made@ == (TimeSynchronizerView {
                window: Seq::empty(),
                pending: None,
                sustained: 0,
                quiet_until: 0,
            }),
    {
        TimeSynchronizer { window: Vec::new(), pending: None, sustained: 0, quiet_until: 0 }
    }

    /// Takes the report of one link for the current tick: by how many frames
    /// this side believes to lag behind the peer, and the peer behind this
    /// side.
    pub fn report(&mut self, local_behind: i32, remote_behind: i32)
        requires
            old(self).wf(),
        ensures
            final(self).wf(),
            final(self)@ == old(self)@.report(local_behind, remote_behind),
    {
        let s: i64 = remote_behind as i64 - local_behind as i64;
        match self.pending {
            Some(worst) => {
                if worst < s {
                    self.pending = Some(s);
                }
            },
            None => {
                self.pending = Some(s);
            },
        }
    }

    fn sum(&self) -> (sum: i64)
        requires
            self.wf(),
        ensures
            sum == total(self@.window),
    {
        let mut sum: i64 = 0;
        let mut i: usize = 0;
        while i < self.window.len()
            invariant
                self.wf(),
                i <= self.window.len(),
                sum == total(self@.window.subrange(0, i as int)),
                -0x1_0000_0000 * i <= sum <= 0x1_0000_0000 * i,
            decreases self.window.len() - i,
        {
            proof {
                let longer = self@.window.subrange(0, i + 1);
                assert(longer.drop_last() =~= self@.window.subrange(0, i as int));
            }
            sum = sum + self.window[i];
            i += 1;
        }
        assert(self@.window.subrange(0, self.window.len() as int) =~= self@.window);
        sum
    }

    /// The number of frames that this side is ahead of the slowest peer,
    /// smoothed over the window; negative if it is behind.
    pub fn frames_ahead(&self) -> (ahead: i64)
        requires
            self.wf(),
        ensures
            ahead == smoothed(self@.window),
            -0x1_0000_0000 <= ahead <= 0x1_0000_0000,
    {
        let n = self.window.len();
        if n == 0 {
            return 0;
        }
        let sum = self.sum();
        proof {
            lemma_total_bounds(self@.window);
        }
        let divisor: i64 = 2 * (n as i64);
        proof {
            let magnitude: int = if sum >= 0 {
                sum as int
            } else {
                -sum
            };
            assert(0 <= magnitude / (divisor as int) <= 0x1_0000_0000) by (nonlinear_arith)
                requires
                    0 <= magnitude <= 0x1_0000_0000 * n,
                    divisor == 2 * n,
                    n >= 1,
            ;
        }
        if sum >= 0 {
            sum / divisor
        } else {
            -((-sum) / divisor)
        }
    }

    /// Closes the tick in which `frame` was simulated and returns the
    /// recommendation, if one is due: the number of frames that the game
    /// should wait (or, if negative, catch up).
    pub fn end_tick(&mut self, frame: Frame) -> (advice: Option<i32>)
        requires
            old(self).wf(),
        ensures
            final(self).wf(),
            advice == old(self)@.recommendation(frame),
            final(self)@ == old(self)@.end_tick(frame),
    {
        match self.pending {
            Some(s) => {
                if self.window.len() >= FRAME_WINDOW_SIZE {
                    let oldest = self.window.remove(0);
                }
                self.window.push(s);
                self.pending = None;
            },
            None => {},
        }
        assert(self@.window =~= old(self)@.next_window());
        let ahead = self.frames_ahead();
        if ahead > SKEW_THRESHOLD as i64 || ahead < -(SKEW_THRESHOLD as i64) {
            if self.sustained < SUSTAINED_TICKS {
                self.sustained = self.sustained + 1;
            }
        } else {
            self.sustained = 0;
        }
        if self.sustained >= SUSTAINED_TICKS && frame >= self.quiet_until {
            self.sustained = 0;
            self.quiet_until = if frame <= i32::MAX - RECOMMENDATION_INTERVAL {
                frame + RECOMMENDATION_INTERVAL
            } else {
                i32::MAX
            };
            let bounded: i32 = if ahead > MAX_RECOMMENDATION as i64 {
                MAX_RECOMMENDATION
            } else if ahead < -(MAX_RECOMMENDATION as i64) {
                -MAX_RECOMMENDATION
            } else {
                ahead as i32
            };
            Some(bounded)
        } else {
            None
        }
    }
}

/// A recommendation is never larger than `MAX_RECOMMENDATION` frames either
/// way, is only made for a skew beyond the threshold, and after one no other
/// follows for `RECOMMENDATION_INTERVAL` frames.
pub proof fn lemma_recommendations_are_damped(v: TimeSynchronizerView, frame: Frame, next: Frame)
    requires
        v.wf(),
        v.recommendation(frame).is_some(),
        frame <= next,
        next < frame + RECOMMENDATION_INTERVAL,
    ensures
        -MAX_RECOMMENDATION <= v.recommendation(frame).unwrap() <= MAX_RECOMMENDATION,
        v.recommendation(frame).unwrap() > SKEW_THRESHOLD || v.recommendation(frame).unwrap()
            < -SKEW_THRESHOLD,
        v.end_tick(frame).recommendation(next).is_none(),
{
}

} // verus!
