//! The parts of the datagram transport that are pure computation: which
//! ports to try, what to put into a datagram and what to make of one.

use crate::network::udp_msg::{decode, spec_decode, UdpMsg};
use crate::player::PeerAddress;
use vstd::prelude::*;

verus! {

/// How many ports after the first one are tried when a port is taken.
pub const BIND_RETRIES: usize = 3;

/// The address of this machine as the transport binds it: 127.0.0.1.
pub const LOCAL_IP: u32 = 0x7f00_0001;

/// The largest datagram that is read.
pub const MAX_DATAGRAM_SIZE: usize = 4096;

/// Why the transport could not do what it was asked.
#[derive(Debug, Clone, Copy, PartialEq, Eq, Structural)]
pub enum UdpError {
    /// No socket is bound.
    SocketUninit,
    /// No one is there to take the messages.
    CallbacksUninit,
    /// The socket failed.
    Io,
    /// The bytes carry no message.
    Bincode,
}

impl UdpError {
    /// The text that describes this error.
    pub fn message(&self) -> (text: &'static str)
        ensures
            text@ == match *self {
                UdpError::SocketUninit => "Socket unbound/unitialized."@,
                UdpError::CallbacksUninit => "Session callbacks uninitialized."@,
                UdpError::Io => "IO Error"@,
                UdpError::Bincode => "Bincode (de)serialization Error"@,
            },
    {
        match self {
            UdpError::SocketUninit => "Socket unbound/unitialized.",
            UdpError::CallbacksUninit => "Session callbacks uninitialized.",
            UdpError::Io => "IO Error",
            UdpError::Bincode => "Bincode (de)serialization Error",
        }
    }
}

/// The bytes of one message and the peer they go to or came from.
#[derive(Debug, PartialEq, Eq)]
pub struct Datagram {
    pub address: PeerAddress,
    pub payload: Vec<u8>,
}

/// Mathematical value of a [`Datagram`].
pub struct DatagramView {
    pub address: PeerAddress,
    pub payload: Seq<u8>,
}

impl View for Datagram {
    type V = DatagramView;

    open spec fn view(&self) -> DatagramView {
        DatagramView { address: self.address, payload: self.payload@ }
    }
}

/// The values of a vector of datagrams.
pub open spec fn datagram_views(v: Seq<Datagram>) -> Seq<DatagramView> {
    v.map_values(|d: Datagram| d@)
}

/// The port to try at the given attempt to bind, attempts counting from
/// zero: the ports follow each other from `base` and start again at zero
/// after the last one.
pub open spec fn spec_bind_port(base: u16, attempt: usize) -> u16 {
    ((base + attempt) % 0x1_0000) as u16
}

/// The port to try at the given attempt to bind.
pub fn bind_port(base: u16, attempt: usize) -> (port: u16)
    ensures
        port == spec_bind_port(base, attempt),
{
    let step: u32 = (attempt % 0x1_0000) as u32;
    ((base as u32 + step) % 0x1_0000) as u16
}

/// The addresses to try to bind, in turn, for a socket that is asked for
/// `port` on this machine and may move up by `retries` ports.
pub fn bind_candidates(port: u16, retries: usize) -> (out: Vec<PeerAddress>)
    requires
        retries < usize::MAX,
    ensures
        out@.len() == retries + 1,
        forall|i: int|
            0 <= i <= retries ==> #[trigger] out@[i] == (PeerAddress {
                ip: LOCAL_IP,
                port: spec_bind_port(port, i as usize),
            }),
{
    let mut out: Vec<PeerAddress> = Vec::new();
    let mut attempt: usize = 0;
    while attempt <= retries
        invariant
            retries < usize::MAX,
            attempt <= retries + 1,
            out@.len() == attempt,
            forall|i: int|
                0 <= i < attempt ==> #[trigger] out@[i] == (PeerAddress {
                    ip: LOCAL_IP,
                    port: spec_bind_port(port, i as usize),
                }),
        decreases retries + 1 - attempt,
    {
        out.push(PeerAddress { ip: LOCAL_IP, port: bind_port(port, attempt) });
        attempt += 1;
    }
    out
}

/// The message in the first `len` bytes of `buffer`, the bytes that were
/// received. Fails with `Bincode` when the bytes carry no message or `len`
/// is more than the buffer holds.
pub fn read_datagram(buffer: &[u8], len: usize) -> (msg: Result<UdpMsg, UdpError>)
    ensures
        match msg {
            Ok(m) => len <= buffer@.len() && spec_decode(buffer@.subrange(0, len as int))
                == Some(m@),
            Err(e) => e == UdpError::Bincode && (len > buffer@.len() || spec_decode(
                buffer@.subrange(0, len as int),
            ).is_none()),
        },
{
    if len > buffer.len() {
        return Err(UdpError::Bincode);
    }
    let received = vstd::slice::slice_subrange(buffer, 0, len);
    match decode(received) {
        Some(msg) => Ok(msg),
        None => Err(UdpError::Bincode),
    }
}

} // verus!
