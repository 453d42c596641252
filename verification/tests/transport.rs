use ggpo::network::udp::{
    bind_candidates, bind_port, read_datagram, UdpError, BIND_RETRIES, LOCAL_IP,
};
use ggpo::network::udp_msg::{encode, UdpMsg};
use ggpo::player::PeerAddress;

#[test]
fn bind_port_counts_up() {
    assert_eq!(bind_port(7000, 0), 7000);
    assert_eq!(bind_port(7000, 1), 7001);
    assert_eq!(bind_port(7000, 3), 7003);
}

#[test]
fn bind_port_starts_again_after_the_last_port() {
    assert_eq!(bind_port(65535, 0), 65535);
    assert_eq!(bind_port(65535, 1), 0);
    assert_eq!(bind_port(65534, 3), 1);
    assert_eq!(bind_port(1, 65536), 1);
    assert_eq!(bind_port(10, usize::MAX), ((10u128 + usize::MAX as u128) % 65536) as u16);
}

#[test]
fn bind_candidates_are_the_port_and_its_followers() {
    let tried = bind_candidates(7000, BIND_RETRIES);
    assert_eq!(
        tried,
        vec![
            PeerAddress { ip: LOCAL_IP, port: 7000 },
            PeerAddress { ip: LOCAL_IP, port: 7001 },
            PeerAddress { ip: LOCAL_IP, port: 7002 },
            PeerAddress { ip: LOCAL_IP, port: 7003 },
        ]
    );
    assert_eq!(bind_candidates(9, 0), vec![PeerAddress { ip: 0x7f00_0001, port: 9 }]);
}

#[test]
fn read_datagram_reads_what_was_received() {
    let msg = UdpMsg::SyncReply { nonce: 5 };
    let mut buffer = encode(&msg);
    buffer.extend_from_slice(&[0xee; 8]);
    assert_eq!(read_datagram(&buffer, 8), Ok(msg));
    assert_eq!(read_datagram(&buffer, 9), Err(UdpError::Bincode));
    assert_eq!(read_datagram(&buffer, 7), Err(UdpError::Bincode));
    assert_eq!(read_datagram(&buffer, 0), Err(UdpError::Bincode));
    assert_eq!(read_datagram(&buffer, 17), Err(UdpError::Bincode));
}

#[test]
fn transport_errors_describe_themselves() {
    assert_eq!(UdpError::SocketUninit.message(), "Socket unbound/unitialized.");
    assert_eq!(UdpError::CallbacksUninit.message(), "Session callbacks uninitialized.");
    assert_eq!(UdpError::Io.message(), "IO Error");
    assert_eq!(UdpError::Bincode.message(), "Bincode (de)serialization Error");
}
