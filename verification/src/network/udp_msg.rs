//! The messages that peers exchange and their layout in a datagram.
//!
//! A datagram holds exactly one message: a four-byte tag that names the
//! variant, then the variant's fields in declaration order. Integers are
//! fixed-width and little-endian, signed ones in two's complement. The one
//! variable-length field, the input bits, is preceded by its length as an
//! eight-byte integer. Nothing may follow the last field.

use crate::game_input::Frame;
use vstd::prelude::*;

verus! {

/// A protocol message.
#[derive(Debug, PartialEq, Eq)]
pub enum UdpMsg {
    /// Handshake probe; the peer answers with the same nonce.
    SyncRequest { nonce: u32 },
    /// Answer to a handshake probe.
    SyncReply { nonce: u32 },
    /// The sender's input for `frame`, together with the highest frame of
    /// the receiver's input that the sender holds.
    Input { frame: Frame, bits: Vec<u8>, ack_frame: Frame, sequence: u32 },
    /// The sender's view of how far ahead it runs, and its measured ping.
    QualityReport { frame_advantage: i32, ping: u32, sequence: u32 },
    /// Answer to a quality report.
    QualityReply { sequence: u32 },
    /// Sent when nothing else was, to show that the sender is alive.
    KeepAlive { sequence: u32 },
}

/// Mathematical value of a [`UdpMsg`].
pub enum UdpMsgView {
    SyncRequest { nonce: u32 },
    SyncReply { nonce: u32 },
    Input { frame: Frame, bits: Seq<u8>, ack_frame: Frame, sequence: u32 },
    QualityReport { frame_advantage: i32, ping: u32, sequence: u32 },
    QualityReply { sequence: u32 },
    KeepAlive { sequence: u32 },
}

impl View for UdpMsg {
    type V = UdpMsgView;

    open spec fn view(&self) -> UdpMsgView {
        match *self {
            UdpMsg::SyncRequest { nonce } => UdpMsgView::SyncRequest { nonce },
            UdpMsg::SyncReply { nonce } => UdpMsgView::SyncReply { nonce },
            UdpMsg::Input { frame, bits, ack_frame, sequence } => UdpMsgView::Input {
                frame,
                bits: bits@,
                ack_frame,
                sequence,
            },
            UdpMsg::QualityReport { frame_advantage, ping, sequence } => UdpMsgView::QualityReport {
                frame_advantage,
                ping,
                sequence,
            },
            UdpMsg::QualityReply { sequence } => UdpMsgView::QualityReply { sequence },
            UdpMsg::KeepAlive { sequence } => UdpMsgView::KeepAlive { sequence },
        }
    }
}

pub const TAG_SYNC_REQUEST: u32 = 0;

pub const TAG_SYNC_REPLY: u32 = 1;

pub const TAG_INPUT: u32 = 2;

pub const TAG_QUALITY_REPORT: u32 = 3;

pub const TAG_QUALITY_REPLY: u32 = 4;

pub const TAG_KEEP_ALIVE: u32 = 5;

/// Number of bytes of an input message besides its bits.
pub const INPUT_OVERHEAD: usize = 24;

/// The four bytes of `x`, least significant first.
pub open spec fn le32(x: u32) -> Seq<u8> {
    seq![
        (x % 256) as u8,
        (x / 0x100 % 256) as u8,
        (x / 0x1_0000 % 256) as u8,
        (x / 0x100_0000 % 256) as u8,
    ]
}

/// The number whose four bytes, least significant first, are `b[0..4]`.
pub open spec fn from_le32(b: Seq<u8>) -> u32 {
    (b[0] as int + 0x100 * (b[1] as int) + 0x1_0000 * (b[2] as int) + 0x100_0000 * (
    b[3] as int)) as u32
}

/// The eight bytes of `x`, least significant first.
pub open spec fn le64(x: u64) -> Seq<u8> {
    le32((x % 0x1_0000_0000) as u32) + le32((x / 0x1_0000_0000) as u32)
}

/// The number whose eight bytes, least significant first, are `b[0..8]`.
pub open spec fn from_le64(b: Seq<u8>) -> u64 {
    (from_le32(b.subrange(0, 4)) as int + 0x1_0000_0000 * (from_le32(b.subrange(4, 8)) as int)) as u64
}

/// The two's complement of a signed 32-bit number.
pub open spec fn unsigned32(x: i32) -> u32 {
    if x < 0 {
        (x + 0x1_0000_0000) as u32
    } else {
        x as u32
    }
}

/// The signed number of which `u` is the two's complement.
pub open spec fn signed32(u: u32) -> i32 {
    if u >= 0x8000_0000 {
        (u - 0x1_0000_0000) as i32
    } else {
        u as i32
    }
}

/// The tag that announces the variant of `m`.
pub open spec fn spec_tag(m: UdpMsgView) -> u32 {
    match m {
        UdpMsgView::SyncRequest { .. } => TAG_SYNC_REQUEST,
        UdpMsgView::SyncReply { .. } => TAG_SYNC_REPLY,
        UdpMsgView::Input { .. } => TAG_INPUT,
        UdpMsgView::QualityReport { .. } => TAG_QUALITY_REPORT,
        UdpMsgView::QualityReply { .. } => TAG_QUALITY_REPLY,
        UdpMsgView::KeepAlive { .. } => TAG_KEEP_ALIVE,
    }
}

/// The fields of `m` as they follow the tag.
pub open spec fn spec_body(m: UdpMsgView) -> Seq<u8> {
    match m {
        UdpMsgView::SyncRequest { nonce } => le32(nonce),
        UdpMsgView::SyncReply { nonce } => le32(nonce),
        UdpMsgView::Input { frame, bits, ack_frame, sequence } => le32(unsigned32(frame)) + le64(
            bits.len() as u64,
        ) + bits + le32(unsigned32(ack_frame)) + le32(sequence),
        UdpMsgView::QualityReport { frame_advantage, ping, sequence } => le32(
            unsigned32(frame_advantage),
        ) + le32(ping) + le32(sequence),
        UdpMsgView::QualityReply { sequence } => le32(sequence),
        UdpMsgView::KeepAlive { sequence } => le32(sequence),
    }
}

/// The number of bytes of the datagram that carries `m`.
pub open spec fn wire_len(m: UdpMsgView) -> nat {
    match m {
        UdpMsgView::Input { bits, .. } => INPUT_OVERHEAD as nat + bits.len(),
        UdpMsgView::QualityReport { .. } => 16,
        _ => 8,
    }
}

/// The datagram that carries `m`.
pub open spec fn spec_encode(m: UdpMsgView) -> Seq<u8> {
    le32(spec_tag(m)) + spec_body(m)
}

/// A message can be sent when the length of its bits fits the length field.
/// Every [`UdpMsg`] can.
pub open spec fn encodable(m: UdpMsgView) -> bool {
    match m {
        UdpMsgView::Input { bits, .. } => bits.len() <= u64::MAX,
        _ => true,
    }
}

/// The message that a datagram carries, if it carries one.
pub open spec fn spec_decode(bytes: Seq<u8>) -> Option<UdpMsgView> {
    if exists|m: UdpMsgView| encodable(m) && spec_encode(m) == bytes {
        Some(choose|m: UdpMsgView| encodable(m) && spec_encode(m) == bytes)
    } else {
        None
    }
}

/// The four bytes of a number stand for that number.
pub proof fn lemma_le32_round_trip(x: u32)
    ensures
        le32(x).len() == 4,
        from_le32(le32(x)) == x,
{
}

proof fn lemma_low_byte(lo: int, hi: int)
    requires
        0 <= lo < 256,
    ensures
        (lo + 256 * hi) % 256 == lo,
        (lo + 256 * hi) / 256 == hi,
{
}

/// The number that four bytes stand for has those four bytes.
pub proof fn lemma_from_le32_round_trip(b: Seq<u8>)
    requires
        b.len() == 4,
    ensures
        le32(from_le32(b)) == b,
{
    let b0 = b[0] as int;
    let b1 = b[1] as int;
    let b2 = b[2] as int;
    let b3 = b[3] as int;
    let x3 = b3;
    let x2 = b2 + 256 * x3;
    let x1 = b1 + 256 * x2;
    let x0 = b0 + 256 * x1;
    lemma_low_byte(b0, x1);
    lemma_low_byte(b1, x2);
    lemma_low_byte(b2, x3);
    assert(from_le32(b) == x0);
    assert(x0 / 0x100 == x1);
    assert(x0 / 0x1_0000 == x2) by {
        assert(x0 / 0x1_0000 == (x0 / 0x100) / 0x100);
    }
    assert(x0 / 0x100_0000 == x3) by {
        assert(x0 / 0x100_0000 == (x0 / 0x1_0000) / 0x100);
    }
    assert(x3 % 256 == b3);
    assert(le32(from_le32(b)) =~= b);
}

/// The eight bytes of a number stand for that number.
pub proof fn lemma_le64_round_trip(x: u64)
    ensures
        le64(x).len() == 8,
        from_le64(le64(x)) == x,
{
    let lo = (x % 0x1_0000_0000) as u32;
    let hi = (x / 0x1_0000_0000) as u32;
    lemma_le32_round_trip(lo);
    lemma_le32_round_trip(hi);
    assert(le64(x).subrange(0, 4) =~= le32(lo));
    assert(le64(x).subrange(4, 8) =~= le32(hi));
}

/// The number that eight bytes stand for has those eight bytes.
pub proof fn lemma_from_le64_round_trip(b: Seq<u8>)
    requires
        b.len() == 8,
    ensures
        le64(from_le64(b)) == b,
{
    let lo = b.subrange(0, 4);
    let hi = b.subrange(4, 8);
    lemma_from_le32_round_trip(lo);
    lemma_from_le32_round_trip(hi);
    let l = from_le32(lo) as int;
    let h = from_le32(hi) as int;
    assert((l + 0x1_0000_0000 * h) % 0x1_0000_0000 == l);
    assert((l + 0x1_0000_0000 * h) / 0x1_0000_0000 == h);
    assert(from_le64(b) == l + 0x1_0000_0000 * h);
    assert(le64(from_le64(b)) =~= lo + hi);
    assert(lo + hi =~= b);
}

/// A signed number is the one that its two's complement stands for.
pub proof fn lemma_signed_round_trip(x: i32)
    ensures
        signed32(unsigned32(x)) == x,
{
}

/// An unsigned number is the two's complement of the signed number that it
/// stands for.
pub proof fn lemma_unsigned_round_trip(u: u32)
    ensures
        unsigned32(signed32(u)) == u,
{
}

/// Every datagram starts with its tag and has the length that its variant
/// fixes.
pub proof fn lemma_encoding_shape(m: UdpMsgView)
    ensures
        spec_encode(m).len() == 4 + spec_body(m).len(),
        spec_encode(m).len() == wire_len(m),
        spec_encode(m).subrange(0, 4) == le32(spec_tag(m)),
        spec_encode(m).subrange(4, spec_encode(m).len() as int) == spec_body(m),
        from_le32(spec_encode(m)) == spec_tag(m),
        spec_tag(m) <= TAG_KEEP_ALIVE,
        spec_body(m).len() == match m {
            UdpMsgView::Input { bits, .. } => 20 + bits.len(),
            UdpMsgView::QualityReport { .. } => 12,
            _ => 4,
        },
{
    lemma_le32_round_trip(spec_tag(m));
    assert(spec_encode(m).subrange(0, 4) =~= le32(spec_tag(m)));
    assert(spec_encode(m).subrange(4, spec_encode(m).len() as int) =~= spec_body(m));
    assert(from_le32(spec_encode(m)) == from_le32(le32(spec_tag(m))));
}

/// The fields of an input message lie where the layout puts them.
pub proof fn lemma_input_fields(frame: Frame, bits: Seq<u8>, ack_frame: Frame, sequence: u32)
    ensures
        ({
            let body = spec_body(UdpMsgView::Input { frame, bits, ack_frame, sequence });
            let n = bits.len() as int;
            &&& body.len() == 20 + n
            &&& body.subrange(0, 4) == le32(unsigned32(frame))
            &&& body.subrange(4, 12) == le64(bits.len() as u64)
            &&& body.subrange(12, 12 + n) == bits
            &&& body.subrange(12 + n, 16 + n) == le32(unsigned32(ack_frame))
            &&& body.subrange(16 + n, 20 + n) == le32(sequence)
        }),
{
    let body = spec_body(UdpMsgView::Input { frame, bits, ack_frame, sequence });
    let n = bits.len() as int;
    assert(body.subrange(0, 4) =~= le32(unsigned32(frame)));
    assert(body.subrange(4, 12) =~= le64(bits.len() as u64));
    assert(body.subrange(12, 12 + n) =~= bits);
    assert(body.subrange(12 + n, 16 + n) =~= le32(unsigned32(ack_frame)));
    assert(body.subrange(16 + n, 20 + n) =~= le32(sequence));
}

/// Two numbers with the same four bytes are the same number.
pub proof fn lemma_le32_injective(x: u32, y: u32)
    requires
        le32(x) == le32(y),
    ensures
        x == y,
{
    lemma_le32_round_trip(x);
    lemma_le32_round_trip(y);
}

/// Two sendable messages with the same datagram are the same message.
pub proof fn lemma_encode_injective(a: UdpMsgView, b: UdpMsgView)
    requires
        encodable(a),
        encodable(b),
        spec_encode(a) == spec_encode(b),
    ensures
        a == b,
{
    lemma_encoding_shape(a);
    lemma_encoding_shape(b);
    let body = spec_body(a);
    assert(body == spec_body(b));
    assert(spec_tag(a) == spec_tag(b));
    match (a, b) {
        (
            UdpMsgView::Input { frame: f1, bits: b1, ack_frame: a1, sequence: s1 },
            UdpMsgView::Input { frame: f2, bits: b2, ack_frame: a2, sequence: s2 },
        ) => {
            lemma_input_fields(f1, b1, a1, s1);
            lemma_input_fields(f2, b2, a2, s2);
            lemma_le32_injective(unsigned32(f1), unsigned32(f2));
            lemma_le32_injective(unsigned32(a1), unsigned32(a2));
            lemma_le32_injective(s1, s2);
            lemma_signed_round_trip(f1);
            lemma_signed_round_trip(f2);
            lemma_signed_round_trip(a1);
            lemma_signed_round_trip(a2);
        },
        (
            UdpMsgView::QualityReport { frame_advantage: f1, ping: ping_a, sequence: s1 },
            UdpMsgView::QualityReport { frame_advantage: f2, ping: ping_b, sequence: s2 },
        ) => {
            assert(body.subrange(0, 4) =~= le32(unsigned32(f1)));
            assert(body.subrange(0, 4) =~= le32(unsigned32(f2)));
            assert(body.subrange(4, 8) =~= le32(ping_a));
            assert(body.subrange(4, 8) =~= le32(ping_b));
            assert(body.subrange(8, 12) =~= le32(s1));
            assert(body.subrange(8, 12) =~= le32(s2));
            lemma_le32_injective(unsigned32(f1), unsigned32(f2));
            lemma_le32_injective(ping_a, ping_b);
            lemma_le32_injective(s1, s2);
            lemma_signed_round_trip(f1);
            lemma_signed_round_trip(f2);
        },
        (UdpMsgView::SyncRequest { nonce: n1 }, UdpMsgView::SyncRequest { nonce: n2 }) => {
            lemma_le32_injective(n1, n2);
        },
        (UdpMsgView::SyncReply { nonce: n1 }, UdpMsgView::SyncReply { nonce: n2 }) => {
            lemma_le32_injective(n1, n2);
        },
        (UdpMsgView::QualityReply { sequence: s1 }, UdpMsgView::QualityReply { sequence: s2 }) => {
            lemma_le32_injective(s1, s2);
        },
        (UdpMsgView::KeepAlive { sequence: s1 }, UdpMsgView::KeepAlive { sequence: s2 }) => {
            lemma_le32_injective(s1, s2);
        },
        _ => {},
    }
}

/// Decoding the datagram of a message gives the message back, whatever its
/// variant and whatever its fields hold.
pub proof fn lemma_decode_encode(m: UdpMsgView)
    requires
        encodable(m),
    ensures
        spec_decode(spec_encode(m)) == Some(m),
{
    let bytes = spec_encode(m);
    let found = choose|x: UdpMsgView| encodable(x) && spec_encode(x) == bytes;
    assert(encodable(m) && spec_encode(m) == bytes);
    lemma_encode_injective(found, m);
}

/// Encoding what a datagram decodes to gives the datagram back: no two
/// datagrams carry the same message.
pub proof fn lemma_encode_decode(bytes: Seq<u8>)
    requires
        spec_decode(bytes).is_some(),
    ensures
        spec_encode(spec_decode(bytes).unwrap()) == bytes,
{
}

fn put_u32(out: &mut Vec<u8>, x: u32)
    ensures
        final(out)@ == old(out)@ + le32(x),
{
    out.push((x % 256) as u8);
    out.push((x / 0x100 % 256) as u8);
    out.push((x / 0x1_0000 % 256) as u8);
    out.push((x / 0x100_0000 % 256) as u8);
    assert(out@ =~= old(out)@ + le32(x));
}

fn put_u64(out: &mut Vec<u8>, x: u64)
    ensures
        final(out)@ == old(out)@ + le64(x),
{
    put_u32(out, (x % 0x1_0000_0000) as u32);
    put_u32(out, (x / 0x1_0000_0000) as u32);
    assert(out@ =~= old(out)@ + le64(x));
}

fn put_bytes(out: &mut Vec<u8>, bytes: &Vec<u8>)
    ensures
        final(out)@ == old(out)@ + bytes@,
{
    let mut i: usize = 0;
    while i < bytes.len()
        invariant
            i <= bytes.len(),
            out@ == old(out)@ + bytes@.subrange(0, i as int),
        decreases bytes.len() - i,
    {
        out.push(bytes[i]);
        i += 1;
        assert(out@ =~= old(out)@ + bytes@.subrange(0, i as int));
    }
    assert(bytes@.subrange(0, bytes.len() as int) =~= bytes@);
}

fn get_u32(bytes: &[u8], at: usize) -> (x: u32)
    requires
        at + 4 <= bytes@.len() <= usize::MAX,
    ensures
        x == from_le32(bytes@.subrange(at as int, at + 4)),
{
    let b0: u32 = bytes[at] as u32;
    let b1: u32 = bytes[at + 1] as u32;
    let b2: u32 = bytes[at + 2] as u32;
    let b3: u32 = bytes[at + 3] as u32;
    b0 + 0x100 * b1 + 0x1_0000 * b2 + 0x100_0000 * b3
}

fn get_u64(bytes: &[u8], at: usize) -> (x: u64)
    requires
        at + 8 <= bytes@.len() <= usize::MAX,
    ensures
        x == from_le64(bytes@.subrange(at as int, at + 8)),
{
    let lo: u64 = get_u32(bytes, at) as u64;
    let hi: u64 = get_u32(bytes, at + 4) as u64;
    proof {
        let whole = bytes@.subrange(at as int, at + 8);
        assert(whole.subrange(0, 4) =~= bytes@.subrange(at as int, at + 4));
        assert(whole.subrange(4, 8) =~= bytes@.subrange(at + 4, at + 8));
    }
    lo + 0x1_0000_0000 * hi
}

fn get_bytes(bytes: &[u8], at: usize, n: usize) -> (out: Vec<u8>)
    requires
        at + n <= bytes@.len() <= usize::MAX,
    ensures
        out@ == bytes@.subrange(at as int, at + n),
{
    let mut out: Vec<u8> = Vec::new();
    let mut i: usize = 0;
    while i < n
        invariant
            i <= n,
            at + n <= bytes@.len() <= usize::MAX,
            out@ == bytes@.subrange(at as int, at + i),
        decreases n - i,
    {
        out.push(bytes[at + i]);
        i += 1;
        assert(out@ =~= bytes@.subrange(at as int, at + i));
    }
    out
}

fn to_unsigned(x: i32) -> (u: u32)
    ensures
        u == unsigned32(x),
{
    if x < 0 {
        let wide: i64 = x as i64;
        (wide + 0x1_0000_0000) as u32
    } else {
        x as u32
    }
}

fn to_signed(u: u32) -> (x: i32)
    ensures
        x == signed32(u),
{
    if u >= 0x8000_0000 {
        let wide: i64 = u as i64;
        (wide - 0x1_0000_0000) as i32
    } else {
        u as i32
    }
}

impl UdpMsg {
    /// A copy of this message.
    pub fn duplicate(&self) -> (copy: UdpMsg)
        ensures
            copy@ == self@,
    {
        match self {
            UdpMsg::SyncRequest { nonce } => UdpMsg::SyncRequest { nonce: *nonce },
            UdpMsg::SyncReply { nonce } => UdpMsg::SyncReply { nonce: *nonce },
            UdpMsg::Input { frame, bits, ack_frame, sequence } => UdpMsg::Input {
                frame: *frame,
                bits: crate::game_input::copy_bits(bits),
                ack_frame: *ack_frame,
                sequence: *sequence,
            },
            UdpMsg::QualityReport { frame_advantage, ping, sequence } => UdpMsg::QualityReport {
                frame_advantage: *frame_advantage,
                ping: *ping,
                sequence: *sequence,
            },
            UdpMsg::QualityReply { sequence } => UdpMsg::QualityReply { sequence: *sequence },
            UdpMsg::KeepAlive { sequence } => UdpMsg::KeepAlive { sequence: *sequence },
        }
    }
}

/// Lays a message out as the datagram that carries it.
pub fn encode(msg: &UdpMsg) -> (out: Vec<u8>)
    ensures
        out@ == spec_encode(msg@),
        out@.len() == wire_len(msg@),
        encodable(msg@),
        spec_decode(out@) == Some(msg@),
{
    let mut out: Vec<u8> = Vec::new();
    match msg {
        UdpMsg::SyncRequest { nonce } => {
            put_u32(&mut out, TAG_SYNC_REQUEST);
            put_u32(&mut out, *nonce);
        },
        UdpMsg::SyncReply { nonce } => {
            put_u32(&mut out, TAG_SYNC_REPLY);
            put_u32(&mut out, *nonce);
        },
        UdpMsg::Input { frame, bits, ack_frame, sequence } => {
            put_u32(&mut out, TAG_INPUT);
            put_u32(&mut out, to_unsigned(*frame));
            put_u64(&mut out, bits.len() as u64);
            put_bytes(&mut out, bits);
            put_u32(&mut out, to_unsigned(*ack_frame));
            put_u32(&mut out, *sequence);
        },
        UdpMsg::QualityReport { frame_advantage, ping, sequence } => {
            put_u32(&mut out, TAG_QUALITY_REPORT);
            put_u32(&mut out, to_unsigned(*frame_advantage));
            put_u32(&mut out, *ping);
            put_u32(&mut out, *sequence);
        },
        UdpMsg::QualityReply { sequence } => {
            put_u32(&mut out, TAG_QUALITY_REPLY);
            put_u32(&mut out, *sequence);
        },
        UdpMsg::KeepAlive { sequence } => {
            put_u32(&mut out, TAG_KEEP_ALIVE);
            put_u32(&mut out, *sequence);
        },
    }
    proof {
        assert(out@ =~= spec_encode(msg@));
        lemma_decode_encode(msg@);
        lemma_encoding_shape(msg@);
    }
    out
}

/// No message has a datagram of fewer than eight bytes, with a tag beyond
/// the last one, or with a length other than the one its tag calls for.
proof fn lemma_not_a_datagram(bytes: Seq<u8>)
    requires
        bytes.len() <= usize::MAX,
        bytes.len() < 8 || from_le32(bytes) > TAG_KEEP_ALIVE || (from_le32(bytes) != TAG_INPUT
            && bytes.len() != (if from_le32(bytes) == TAG_QUALITY_REPORT {
            16int
        } else {
            8int
        })) || (from_le32(bytes) == TAG_INPUT && (bytes.len() < INPUT_OVERHEAD || from_le64(
            bytes.subrange(8, 16),
        ) != bytes.len() - INPUT_OVERHEAD)),
    ensures
        spec_decode(bytes).is_none(),
{
    assert forall|m: UdpMsgView| encodable(m) implies spec_encode(m) != bytes by {
        lemma_encoding_shape(m);
        if spec_encode(m) == bytes {
            match m {
                UdpMsgView::Input { frame, bits, ack_frame, sequence } => {
                    lemma_input_fields(frame, bits, ack_frame, sequence);
                    lemma_le64_round_trip(bits.len() as u64);
                    let body = spec_body(m);
                    assert(body.subrange(4, 12) =~= bytes.subrange(8, 16));
                },
                _ => {},
            }
        }
    }
}

/// Bytes that hold the fields of an input message where the layout puts
/// them are the datagram of that message.
proof fn lemma_input_layout(bytes: Seq<u8>, frame: Frame, bits: Seq<u8>, ack_frame: Frame, sequence: u32)
    requires
        bits.len() <= u64::MAX,
        bytes.len() == INPUT_OVERHEAD + bits.len(),
        bytes.subrange(0, 4) == le32(TAG_INPUT),
        bytes.subrange(4, 8) == le32(unsigned32(frame)),
        bytes.subrange(8, 16) == le64(bits.len() as u64),
        bytes.subrange(16, 16 + bits.len() as int) == bits,
        bytes.subrange(16 + bits.len() as int, 20 + bits.len() as int) == le32(unsigned32(ack_frame)),
        bytes.subrange(20 + bits.len() as int, 24 + bits.len() as int) == le32(sequence),
    ensures
        spec_encode(UdpMsgView::Input { frame, bits, ack_frame, sequence }) == bytes,
{
    let n = bits.len() as int;
    let built = spec_encode(UdpMsgView::Input { frame, bits, ack_frame, sequence });
    lemma_le32_round_trip(TAG_INPUT);
    lemma_le32_round_trip(unsigned32(frame));
    lemma_le32_round_trip(unsigned32(ack_frame));
    lemma_le32_round_trip(sequence);
    lemma_le64_round_trip(bits.len() as u64);
    assert(built.len() == bytes.len());
    assert forall|i: int| 0 <= i < bytes.len() implies built[i] == bytes[i] by {
        if i < 4 {
            assert(bytes[i] == bytes.subrange(0, 4)[i]);
        } else if i < 8 {
            assert(bytes[i] == bytes.subrange(4, 8)[i - 4]);
        } else if i < 16 {
            assert(bytes[i] == bytes.subrange(8, 16)[i - 8]);
        } else if i < 16 + n {
            assert(bytes[i] == bytes.subrange(16, 16 + n)[i - 16]);
        } else if i < 20 + n {
            assert(bytes[i] == bytes.subrange(16 + n, 20 + n)[i - 16 - n]);
        } else {
            assert(bytes[i] == bytes.subrange(20 + n, 24 + n)[i - 20 - n]);
        }
    }
    assert(built =~= bytes);
}

fn decode_input(bytes: &[u8]) -> (msg: Option<UdpMsg>)
    requires
        bytes@.len() >= 8,
        from_le32(bytes@) == TAG_INPUT,
    ensures
        match msg {
            Some(m) => spec_decode(bytes@) == Some(m@),
            None => spec_decode(bytes@).is_none(),
        },
{
    if bytes.len() < INPUT_OVERHEAD {
        proof {
            lemma_not_a_datagram(bytes@);
        }
        return None;
    }
    let n: u64 = get_u64(bytes, 8);
    let room: usize = bytes.len() - INPUT_OVERHEAD;
    if n != room as u64 {
        proof {
            lemma_not_a_datagram(bytes@);
        }
        return None;
    }
    let raw_frame = get_u32(bytes, 4);
    let frame = to_signed(raw_frame);
    let bits = get_bytes(bytes, 16, room);
    let raw_ack = get_u32(bytes, 16 + room);
    let ack_frame = to_signed(raw_ack);
    let sequence = get_u32(bytes, 20 + room);
    let msg = UdpMsg::Input { frame, bits, ack_frame, sequence };
    proof {
        assert(from_le32(bytes@.subrange(0, 4)) == from_le32(bytes@));
        lemma_from_le32_round_trip(bytes@.subrange(0, 4));
        lemma_from_le32_round_trip(bytes@.subrange(4, 8));
        lemma_from_le64_round_trip(bytes@.subrange(8, 16));
        lemma_from_le32_round_trip(bytes@.subrange(16 + room, 20 + room));
        lemma_from_le32_round_trip(bytes@.subrange(20 + room, 24 + room));
        lemma_unsigned_round_trip(raw_frame);
        lemma_unsigned_round_trip(raw_ack);
        lemma_input_layout(bytes@, frame, bits@, ack_frame, sequence);
        lemma_decode_encode(msg@);
    }
    Some(msg)
}

/// Reads the message that a datagram carries. A datagram that carries none
/// (too short, unknown tag, a length that does not fit its tag, bytes after
/// the last field) gives `None`.
pub fn decode(bytes: &[u8]) -> (msg: Option<UdpMsg>)
    ensures
        match msg {
            Some(m) => spec_decode(bytes@) == Some(m@),
            None => spec_decode(bytes@).is_none(),
        },
{
    if bytes.len() < 8 {
        proof {
            lemma_not_a_datagram(bytes@);
        }
        return None;
    }
    let tag = get_u32(bytes, 0);
    assert(from_le32(bytes@.subrange(0, 4)) == from_le32(bytes@));
    if tag == TAG_INPUT {
        return decode_input(bytes);
    }
    if tag > TAG_KEEP_ALIVE || (tag == TAG_QUALITY_REPORT && bytes.len() != 16) || (tag
        != TAG_QUALITY_REPORT && bytes.len() != 8) {
        proof {
            lemma_not_a_datagram(bytes@);
        }
        return None;
    }
    let first = get_u32(bytes, 4);
    let msg = if tag == TAG_SYNC_REQUEST {
        UdpMsg::SyncRequest { nonce: first }
    } else if tag == TAG_SYNC_REPLY {
        UdpMsg::SyncReply { nonce: first }
    } else if tag == TAG_QUALITY_REPLY {
        UdpMsg::QualityReply { sequence: first }
    } else if tag == TAG_KEEP_ALIVE {
        UdpMsg::KeepAlive { sequence: first }
    } else {
        let ping = get_u32(bytes, 8);
        let sequence = get_u32(bytes, 12);
        proof {
            lemma_from_le32_round_trip(bytes@.subrange(8, 12));
            lemma_from_le32_round_trip(bytes@.subrange(12, 16));
            lemma_unsigned_round_trip(first);
        }
        UdpMsg::QualityReport { frame_advantage: to_signed(first), ping, sequence }
    };
    proof {
        lemma_from_le32_round_trip(bytes@.subrange(0, 4));
        lemma_from_le32_round_trip(bytes@.subrange(4, 8));
        assert(spec_encode(msg@) =~= bytes@);
        lemma_decode_encode(msg@);
    }
    Some(msg)
}

} // verus!
