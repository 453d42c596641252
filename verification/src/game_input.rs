//! Frames and the per-frame input of one player.

use vstd::prelude::*;

verus! {

/// Index of a simulation step. Frames count up from zero.
pub type Frame = i32;

/// The frame value that stands for "no frame yet".
pub const NULL_FRAME: Frame = -1;

/// The bit-packed input of one player for one frame.
#[derive(Debug)]
pub struct GameInput {
    pub frame: Frame,
    pub bits: Vec<u8>,
}

/// Mathematical value of a [`GameInput`].
pub struct GameInputView {
    pub frame: Frame,
    pub bits: Seq<u8>,
}

impl View for GameInput {
    type V = GameInputView;

    open spec fn view(&self) -> GameInputView {
        GameInputView { frame: self.frame, bits: self.bits@ }
    }
}

/// The input that is assumed for a player of whom nothing is known yet:
/// `size` zero bytes.
pub open spec fn blank_bits(size: nat) -> Seq<u8> {
    Seq::new(size, |i: int| 0u8)
}

/// Copies a byte string.
pub fn copy_bits(bits: &Vec<u8>) -> (out: Vec<u8>)
    ensures
        out@ == bits@,
{
    let mut out: Vec<u8> = Vec::new();
    let mut i: usize = 0;
    while i < bits.len()
        invariant
            i <= bits.len(),
            out@ == bits@.subrange(0, i as int),
        decreases bits.len() - i,
    {
        out.push(bits[i]);
        i += 1;
        assert(out@ =~= bits@.subrange(0, i as int));
    }
    assert(bits@.subrange(0, bits.len() as int) =~= bits@);
    out
}

/// Builds the blank input of the given size.
pub fn make_blank(size: usize) -> (out: Vec<u8>)
    ensures
        out@ == blank_bits(size as nat),
{
    let mut out: Vec<u8> = Vec::new();
    let mut i: usize = 0;
    while i < size
        invariant
            i <= size,
            out@ == blank_bits(i as nat),
        decreases size - i,
    {
        out.push(0u8);
        i += 1;
        assert(out@ =~= blank_bits(i as nat));
    }
    out
}

/// Tells whether two byte strings hold the same bytes.
pub fn same_bits(a: &Vec<u8>, b: &Vec<u8>) -> (eq: bool)
    ensures
        eq == (a@ == b@),
{
    if a.len() != b.len() {
        return false;
    }
    let mut i: usize = 0;
    while i < a.len()
        invariant
            i <= a.len(),
            a.len() == b.len(),
            a@.subrange(0, i as int) == b@.subrange(0, i as int),
        decreases a.len() - i,
    {
        if a[i] != b[i] {
            return false;
        }
        i += 1;
        assert(a@.subrange(0, i as int) =~= a@.subrange(0, i - 1).push(a@[i - 1]));
        assert(b@.subrange(0, i as int) =~= b@.subrange(0, i - 1).push(b@[i - 1]));
    }
    assert(a@.subrange(0, a.len() as int) =~= a@);
    assert(b@.subrange(0, b.len() as int) =~= b@);
    true
}

impl GameInput {
    /// An input for `frame` holding a copy of `bits`.
    pub fn new(frame: Frame, bits: &Vec<u8>) -> (input: GameInput)
        ensures
            input@ == (GameInputView { frame, bits: bits@ }),
    {
        GameInput { frame, bits: copy_bits(bits) }
    }

    /// A copy of this input.
    pub fn duplicate(&self) -> (input: GameInput)
        ensures
            input@ == self@,
    {
        GameInput { frame: self.frame, bits: copy_bits(&self.bits) }
    }
}

} // verus!
