use ggpo::game_input::{GameInput, NULL_FRAME};
use ggpo::ggpo::{GGPOError, Network};
use ggpo::network::udp_msg::UdpMsg;
use ggpo::network::udp_proto::{
    ConnState, Endpoint, ProtoEvent, KEEP_ALIVE_INTERVAL, QUALITY_REPORT_INTERVAL,
    RETRANSMIT_INTERVAL, SYNC_RETRY_INTERVAL,
};

/// An endpoint whose handshake of `round_trips` round trips is done at time
/// `at`, with nothing left in its queues.
fn running(round_trips: u32, at: u64) -> Endpoint {
    let mut e = Endpoint::new(1, round_trips, 5000, 750).unwrap();
    for k in 0..round_trips {
        e.poll(at, 100 + k);
        e.on_message(UdpMsg::SyncReply { nonce: 100 + k }, at);
    }
    assert_eq!(e.state(), ConnState::Running);
    e.take_outbox();
    e.take_events();
    e
}

fn input(frame: i32, value: u8) -> GameInput {
    GameInput { frame, bits: vec![value] }
}

#[test]
fn a_handshake_of_no_round_trip_is_refused() {
    assert_eq!(Endpoint::new(1, 0, 5000, 750).err(), Some(GGPOError::InvalidRequest));
    assert!(Endpoint::new(1, 1, 0, 0).is_ok());
}

#[test]
fn a_new_endpoint_waits_for_the_first_tick() {
    let mut e = Endpoint::new(2, 5, 5000, 750).unwrap();
    assert_eq!(e.state(), ConnState::Initializing);
    assert!(!e.is_synchronized());
    assert_eq!(e.last_received_frame(), NULL_FRAME);
    assert_eq!(e.last_acked_frame(), NULL_FRAME);
    assert_eq!(e.pending_len(), 0);
    assert_eq!(e.take_outbox(), vec![]);
    assert_eq!(e.take_events(), vec![]);
}

#[test]
fn the_handshake_takes_the_configured_round_trips() {
    let mut e = Endpoint::new(1, 3, 5000, 750).unwrap();
    e.poll(1000, 11);
    assert_eq!(e.take_outbox(), vec![UdpMsg::SyncRequest { nonce: 11 }]);
    assert_eq!(e.state(), ConnState::Initializing);
    // nothing more while the probe is out and young
    e.poll(1100, 12);
    assert_eq!(e.take_outbox(), vec![]);
    e.on_message(UdpMsg::SyncReply { nonce: 11 }, 1130);
    assert_eq!(e.state(), ConnState::Syncing);
    assert_eq!(e.round_trip_time(), 130);
    assert_eq!(
        e.take_events(),
        vec![ProtoEvent::Connected, ProtoEvent::Synchronizing { count: 1, total: 3 }]
    );
    e.poll(1140, 13);
    assert_eq!(e.take_outbox(), vec![UdpMsg::SyncRequest { nonce: 13 }]);
    e.on_message(UdpMsg::SyncReply { nonce: 13 }, 1200);
    assert_eq!(e.take_events(), vec![ProtoEvent::Synchronizing { count: 2, total: 3 }]);
    e.poll(1210, 14);
    e.on_message(UdpMsg::SyncReply { nonce: 14 }, 1250);
    assert_eq!(
        e.take_events(),
        vec![ProtoEvent::Synchronizing { count: 3, total: 3 }, ProtoEvent::Synchronized]
    );
    assert_eq!(e.state(), ConnState::Running);
    assert!(e.is_synchronized());
    assert_eq!(e.round_trip_time(), 40);
}

#[test]
fn an_answer_to_another_probe_is_dropped() {
    let mut e = Endpoint::new(1, 2, 5000, 750).unwrap();
    // no probe is out
    e.on_message(UdpMsg::SyncReply { nonce: 0 }, 5);
    assert_eq!(e.state(), ConnState::Initializing);
    e.poll(10, 21);
    e.on_message(UdpMsg::SyncReply { nonce: 22 }, 20);
    assert_eq!(e.state(), ConnState::Initializing);
    assert_eq!(e.take_events(), vec![]);
    e.on_message(UdpMsg::SyncReply { nonce: 21 }, 30);
    assert_eq!(e.state(), ConnState::Syncing);
    // the same answer a second time
    e.on_message(UdpMsg::SyncReply { nonce: 21 }, 40);
    assert_eq!(
        e.take_events(),
        vec![ProtoEvent::Connected, ProtoEvent::Synchronizing { count: 1, total: 2 }]
    );
}

#[test]
fn an_unanswered_probe_is_repeated() {
    let mut e = Endpoint::new(1, 2, 5000, 750).unwrap();
    e.poll(0, 1);
    e.poll(SYNC_RETRY_INTERVAL - 1, 2);
    assert_eq!(e.take_outbox(), vec![UdpMsg::SyncRequest { nonce: 1 }]);
    e.poll(SYNC_RETRY_INTERVAL, 3);
    assert_eq!(e.take_outbox(), vec![UdpMsg::SyncRequest { nonce: 3 }]);
    // only the newest probe counts
    e.on_message(UdpMsg::SyncReply { nonce: 1 }, 510);
    assert_eq!(e.state(), ConnState::Initializing);
    e.on_message(UdpMsg::SyncReply { nonce: 3 }, 520);
    assert_eq!(e.state(), ConnState::Syncing);
}

#[test]
fn a_probe_is_answered_with_its_nonce() {
    let mut e = Endpoint::new(1, 2, 5000, 750).unwrap();
    e.on_message(UdpMsg::SyncRequest { nonce: 99 }, 7);
    assert_eq!(e.take_outbox(), vec![UdpMsg::SyncReply { nonce: 99 }]);
    let mut r = running(1, 0);
    r.on_message(UdpMsg::SyncRequest { nonce: 5 }, 7);
    assert_eq!(r.take_outbox(), vec![UdpMsg::SyncReply { nonce: 5 }]);
}

#[test]
fn a_silent_peer_is_interrupted_and_then_given_up_once_each() {
    let mut e = running(2, 10_000);
    let mut events = Vec::new();
    let mut states = Vec::new();
    for now in [10_100u64, 10_750, 10_751, 10_800, 14_000, 14_999, 15_000, 15_001, 20_000, 90_000] {
        e.poll(now, 0);
        events.push(e.take_events());
        states.push(e.state());
    }
    assert_eq!(
        events,
        vec![
            vec![],
            vec![],
            vec![ProtoEvent::NetworkInterrupted { disconnect_timeout: 4250 }],
            vec![],
            vec![],
            vec![],
            vec![ProtoEvent::Disconnected],
            vec![],
            vec![],
            vec![],
        ]
    );
    assert_eq!(
        states,
        vec![
            ConnState::Running,
            ConnState::Running,
            ConnState::Interrupted,
            ConnState::Interrupted,
            ConnState::Interrupted,
            ConnState::Interrupted,
            ConnState::Disconnected,
            ConnState::Disconnected,
            ConnState::Disconnected,
            ConnState::Disconnected,
        ]
    );
}

#[test]
fn one_late_tick_interrupts_and_gives_up_at_once() {
    let mut e = running(1, 0);
    e.poll(6000, 0);
    assert_eq!(
        e.take_events(),
        vec![
            ProtoEvent::NetworkInterrupted { disconnect_timeout: 4250 },
            ProtoEvent::Disconnected
        ]
    );
    assert_eq!(e.state(), ConnState::Disconnected);
    assert_eq!(e.take_outbox(), vec![]);
}

#[test]
fn a_message_ends_the_interruption() {
    let mut e = running(1, 0);
    e.poll(800, 0);
    assert_eq!(e.state(), ConnState::Interrupted);
    e.take_events();
    e.on_message(UdpMsg::KeepAlive { sequence: 0 }, 900);
    assert_eq!(e.state(), ConnState::Running);
    assert_eq!(e.take_events(), vec![ProtoEvent::NetworkResumed]);
    // the silence is measured anew
    e.poll(1650, 0);
    assert_eq!(e.state(), ConnState::Running);
    e.poll(1651, 0);
    assert_eq!(e.state(), ConnState::Interrupted);
}

#[test]
fn the_timeouts_can_be_set() {
    let mut e = running(1, 0);
    e.set_disconnect_notify_start(100);
    e.set_disconnect_timeout(300);
    e.poll(100, 0);
    assert_eq!(e.state(), ConnState::Running);
    e.poll(101, 0);
    assert_eq!(e.take_events(), vec![ProtoEvent::NetworkInterrupted { disconnect_timeout: 200 }]);
    e.poll(299, 0);
    assert_eq!(e.state(), ConnState::Interrupted);
    e.poll(300, 0);
    assert_eq!(e.state(), ConnState::Disconnected);
}

#[test]
fn a_peer_is_given_up_when_the_timeout_is_reached() {
    let mut e = running(1, 0);
    e.poll(4999, 0);
    assert_eq!(e.state(), ConnState::Interrupted);
    e.take_events();
    e.poll(5000, 0);
    assert_eq!(e.state(), ConnState::Disconnected);
    assert_eq!(e.take_events(), vec![ProtoEvent::Disconnected]);
    // with both times the same the peer is interrupted and given up at once,
    // and not before the time is passed
    let mut e = running(1, 0);
    e.set_disconnect_notify_start(400);
    e.set_disconnect_timeout(400);
    e.poll(400, 0);
    assert_eq!(e.state(), ConnState::Running);
    e.poll(401, 0);
    assert_eq!(
        e.take_events(),
        vec![ProtoEvent::NetworkInterrupted { disconnect_timeout: 0 }, ProtoEvent::Disconnected]
    );
}

#[test]
fn what_waits_to_be_sent_is_dropped_with_the_peer() {
    let mut e = running(1, 0);
    e.send_input(&input(0, 1), 1);
    e.on_message(UdpMsg::QualityReport { frame_advantage: 0, ping: 0, sequence: 0 }, 2);
    e.disconnect();
    assert_eq!(e.take_outbox(), vec![]);
    assert_eq!(e.pending_len(), 0);
    // so it is when the peer is given up for its silence
    let mut e = running(1, 0);
    e.send_input(&input(0, 1), 1);
    e.poll(5000, 0);
    assert_eq!(e.state(), ConnState::Disconnected);
    assert_eq!(e.take_outbox(), vec![]);
}

#[test]
fn a_disconnected_endpoint_does_nothing() {
    let mut e = running(1, 0);
    e.send_input(&input(0, 1), 1);
    e.take_outbox();
    e.disconnect();
    assert_eq!(e.state(), ConnState::Disconnected);
    assert_eq!(e.take_events(), vec![ProtoEvent::Disconnected]);
    assert_eq!(e.pending_len(), 0);
    e.disconnect();
    e.poll(10_000, 1);
    e.on_message(UdpMsg::SyncRequest { nonce: 1 }, 10_001);
    e.on_message(
        UdpMsg::Input { frame: 0, bits: vec![1], ack_frame: 0, sequence: 50 },
        10_002,
    );
    e.send_input(&input(1, 1), 10_003);
    assert_eq!(e.take_events(), vec![]);
    assert_eq!(e.take_outbox(), vec![]);
    assert_eq!(e.last_received_frame(), NULL_FRAME);
}

#[test]
fn inputs_are_sent_with_growing_sequence_numbers_and_the_ack() {
    let mut e = running(1, 0);
    e.send_input(&input(0, 5), 10);
    e.send_input(&input(1, 6), 20);
    assert_eq!(
        e.take_outbox(),
        vec![
            UdpMsg::Input { frame: 0, bits: vec![5], ack_frame: NULL_FRAME, sequence: 0 },
            UdpMsg::Input { frame: 1, bits: vec![6], ack_frame: NULL_FRAME, sequence: 1 },
        ]
    );
    assert_eq!(e.pending_len(), 2);
    e.on_message(UdpMsg::Input { frame: 0, bits: vec![9], ack_frame: NULL_FRAME, sequence: 0 }, 30);
    e.send_input(&input(2, 7), 40);
    assert_eq!(
        e.take_outbox(),
        vec![UdpMsg::Input { frame: 2, bits: vec![7], ack_frame: 0, sequence: 2 }]
    );
}

#[test]
fn inputs_before_the_handshake_are_not_sent() {
    let mut e = Endpoint::new(1, 2, 5000, 750).unwrap();
    e.send_input(&input(0, 5), 10);
    assert_eq!(e.pending_len(), 0);
    assert_eq!(e.take_outbox(), vec![]);
    // and numbered messages are not taken
    e.on_message(UdpMsg::Input { frame: 0, bits: vec![9], ack_frame: -1, sequence: 0 }, 30);
    assert_eq!(e.last_received_frame(), NULL_FRAME);
    assert_eq!(e.take_events(), vec![]);
}

#[test]
fn remote_inputs_are_taken_in_order_and_once() {
    let mut e = running(1, 0);
    let msg = |frame: i32, sequence: u32| UdpMsg::Input {
        frame,
        bits: vec![frame as u8],
        ack_frame: NULL_FRAME,
        sequence,
    };
    e.on_message(msg(0, 0), 1);
    // a repeat under the same number
    e.on_message(msg(0, 0), 2);
    // a repeat under a new number: taken as a message, but the frame is old
    e.on_message(msg(0, 1), 3);
    // a gap
    e.on_message(msg(2, 2), 4);
    assert_eq!(e.last_received_frame(), 0);
    // an older message that arrives late is dropped, though its frame fits
    e.on_message(msg(1, 1), 5);
    assert_eq!(e.last_received_frame(), 0);
    e.on_message(msg(1, 3), 6);
    e.on_message(msg(2, 4), 7);
    assert_eq!(e.last_received_frame(), 2);
    assert_eq!(
        e.take_events(),
        vec![
            ProtoEvent::Input { frame: 0, bits: vec![0] },
            ProtoEvent::Input { frame: 1, bits: vec![1] },
            ProtoEvent::Input { frame: 2, bits: vec![2] },
        ]
    );
}

#[test]
fn an_input_of_the_wrong_length_is_dropped() {
    let mut e = running(1, 0);
    e.on_message(UdpMsg::Input { frame: 0, bits: vec![1, 2], ack_frame: -1, sequence: 5 }, 1);
    e.on_message(UdpMsg::Input { frame: 0, bits: vec![], ack_frame: -1, sequence: 6 }, 1);
    assert_eq!(e.last_received_frame(), NULL_FRAME);
    // the numbers of the dropped messages were not taken either
    e.on_message(UdpMsg::Input { frame: 0, bits: vec![1], ack_frame: -1, sequence: 5 }, 1);
    assert_eq!(e.last_received_frame(), 0);
}

#[test]
fn an_acknowledgment_releases_pending_inputs() {
    let mut e = running(1, 0);
    for f in 0..4 {
        e.send_input(&input(f, f as u8), 10);
    }
    assert_eq!(e.pending_len(), 4);
    e.on_message(UdpMsg::Input { frame: 0, bits: vec![0], ack_frame: 1, sequence: 0 }, 20);
    assert_eq!(e.pending_len(), 2);
    assert_eq!(e.last_acked_frame(), 1);
    // an older acknowledgment changes nothing
    e.on_message(UdpMsg::Input { frame: 1, bits: vec![0], ack_frame: 0, sequence: 1 }, 21);
    assert_eq!(e.pending_len(), 2);
    assert_eq!(e.last_acked_frame(), 1);
    e.on_message(UdpMsg::Input { frame: 2, bits: vec![0], ack_frame: 9, sequence: 2 }, 22);
    assert_eq!(e.pending_len(), 0);
    assert_eq!(e.last_acked_frame(), 9);
}

#[test]
fn pending_inputs_are_sent_again_at_growing_intervals() {
    let mut e = running(1, 0);
    e.send_input(&input(0, 1), 0);
    e.send_input(&input(1, 2), 0);
    e.take_outbox();
    let resent = |e: &mut Endpoint, now: u64| -> Vec<(i32, u32)> {
        e.poll(now, 0);
        e.on_message(UdpMsg::KeepAlive { sequence: now as u32 }, now);
        e.take_outbox()
            .into_iter()
            .filter_map(|m| match m {
                UdpMsg::Input { frame, sequence, .. } if frame != NULL_FRAME => {
                    Some((frame, sequence))
                }
                _ => None,
            })
            .collect()
    };
    assert_eq!(resent(&mut e, RETRANSMIT_INTERVAL - 1), vec![]);
    // first repeat after 200 ms, under new numbers
    let first = resent(&mut e, 200);
    assert_eq!(first.iter().map(|x| x.0).collect::<Vec<_>>(), vec![0, 1]);
    assert!(first[0].1 >= 2 && first[1].1 > first[0].1);
    // the next interval is 400 ms
    assert_eq!(resent(&mut e, 599), vec![]);
    assert_eq!(resent(&mut e, 600).len(), 2);
    // then 800 ms
    assert_eq!(resent(&mut e, 1399), vec![]);
    assert_eq!(resent(&mut e, 1400).len(), 2);
    // then 1600, 3200, and never more than the disconnect timeout of 5000
    assert_eq!(resent(&mut e, 3000).len(), 2);
    assert_eq!(resent(&mut e, 6200).len(), 2);
    assert_eq!(resent(&mut e, 11_199), vec![]);
    assert_eq!(resent(&mut e, 11_200).len(), 2);
    // an acknowledgment that releases an input resets the interval
    e.on_message(UdpMsg::Input { frame: 0, bits: vec![0], ack_frame: 0, sequence: 4_000_000 }, 11_300);
    assert_eq!(resent(&mut e, 11_399), vec![]);
    let after = resent(&mut e, 11_400);
    assert_eq!(after.iter().map(|x| x.0).collect::<Vec<_>>(), vec![1]);
}

#[test]
fn an_input_of_the_peer_is_acknowledged_at_the_next_tick() {
    let mut e = running(1, 0);
    e.on_message(UdpMsg::Input { frame: 0, bits: vec![4], ack_frame: -1, sequence: 0 }, 10);
    e.on_message(UdpMsg::Input { frame: 1, bits: vec![4], ack_frame: -1, sequence: 1 }, 11);
    assert_eq!(e.take_outbox(), vec![]);
    e.poll(12, 0);
    assert_eq!(
        e.take_outbox(),
        vec![UdpMsg::Input { frame: NULL_FRAME, bits: vec![], ack_frame: 1, sequence: 0 }]
    );
    // once is enough
    e.poll(13, 0);
    assert_eq!(e.take_outbox(), vec![]);
    // an input that was taken before is acknowledged again: the first
    // acknowledgment may have been lost
    e.on_message(UdpMsg::Input { frame: 1, bits: vec![4], ack_frame: -1, sequence: 2 }, 14);
    e.poll(15, 0);
    assert_eq!(
        e.take_outbox(),
        vec![UdpMsg::Input { frame: NULL_FRAME, bits: vec![], ack_frame: 1, sequence: 1 }]
    );
    // an input that goes out carries the acknowledgment itself
    e.on_message(UdpMsg::Input { frame: 2, bits: vec![4], ack_frame: -1, sequence: 3 }, 16);
    e.send_input(&input(0, 9), 17);
    e.poll(18, 0);
    assert_eq!(
        e.take_outbox(),
        vec![UdpMsg::Input { frame: 0, bits: vec![9], ack_frame: 2, sequence: 2 }]
    );
    // a mere acknowledgment is taken, and is not acknowledged in turn
    e.on_message(UdpMsg::Input { frame: NULL_FRAME, bits: vec![], ack_frame: 0, sequence: 4 }, 19);
    assert_eq!(e.pending_len(), 0);
    assert_eq!(e.last_acked_frame(), 0);
    e.poll(20, 0);
    assert_eq!(e.take_outbox(), vec![]);
    assert_eq!(e.last_received_frame(), 2);
}

#[test]
fn keep_alives_fill_the_silence() {
    let mut e = running(1, 1000);
    e.poll(1000 + KEEP_ALIVE_INTERVAL - 1, 0);
    assert_eq!(e.take_outbox(), vec![]);
    e.poll(1000 + KEEP_ALIVE_INTERVAL, 0);
    assert_eq!(e.take_outbox(), vec![UdpMsg::KeepAlive { sequence: 0 }]);
    e.poll(1000 + 2 * KEEP_ALIVE_INTERVAL - 1, 0);
    assert_eq!(e.take_outbox(), vec![]);
    e.poll(1000 + 2 * KEEP_ALIVE_INTERVAL, 0);
    assert_eq!(e.take_outbox(), vec![UdpMsg::KeepAlive { sequence: 1 }]);
}

#[test]
fn quality_is_reported_once_a_second_and_answered() {
    let mut e = running(1, 1000);
    e.on_message(UdpMsg::Input { frame: 0, bits: vec![0], ack_frame: -1, sequence: 0 }, 1500);
    e.note_local_frame(4);
    assert_eq!(e.local_frames_behind(), -4);
    e.poll(1000 + QUALITY_REPORT_INTERVAL - 1, 0);
    e.take_outbox();
    e.on_message(UdpMsg::KeepAlive { sequence: 1 }, 1999);
    e.poll(1000 + QUALITY_REPORT_INTERVAL, 0);
    let out = e.take_outbox();
    assert_eq!(out.len(), 1);
    assert!(matches!(
        out[0],
        UdpMsg::QualityReport { frame_advantage: -4, ping: 0, sequence: _ }
    ));
    // a report of the peer is recorded and answered
    e.on_message(UdpMsg::QualityReport { frame_advantage: 3, ping: 40, sequence: 2 }, 2100);
    assert_eq!(e.remote_frames_behind(), 3);
    let out = e.take_outbox();
    assert_eq!(out.len(), 1);
    assert!(matches!(out[0], UdpMsg::QualityReply { sequence: _ }));
    // the answer of the peer keeps the connection alive and nothing else
    assert_eq!(e.take_events(), vec![ProtoEvent::Input { frame: 0, bits: vec![0] }]);
    e.on_message(UdpMsg::QualityReply { sequence: 3 }, 2200);
    assert_eq!(e.take_events(), vec![]);
    assert_eq!(e.take_outbox(), vec![]);
}

#[test]
fn the_statistics_follow_the_connection() {
    let mut e = Endpoint::new(1, 1, 5000, 750).unwrap();
    e.poll(100, 1);
    e.on_message(UdpMsg::SyncReply { nonce: 1 }, 160);
    assert_eq!(
        e.stats(160),
        Network { send_queue_len: 0, recv_queue_len: 0, ping: 60, kbps_sent: 0 }
    );
    // two inputs of one byte: twice 25 bytes and the header of 28
    e.send_input(&input(0, 1), 170);
    e.send_input(&input(1, 1), 180);
    assert_eq!(
        e.stats(161),
        Network { send_queue_len: 2, recv_queue_len: 0, ping: 60, kbps_sent: 106 * 8 }
    );
    assert_eq!(e.stats(160 + 53).kbps_sent, 16);
    assert_eq!(e.stats(160 + 107).kbps_sent, 0);
}

#[test]
fn the_received_watermark_never_goes_down() {
    let mut e = running(1, 0);
    let mut last = e.last_received_frame();
    for k in 0..60u32 {
        let frame = ((k * 7) % 11) as i32 - 2;
        e.on_message(
            UdpMsg::Input { frame, bits: vec![0], ack_frame: frame, sequence: k },
            k as u64,
        );
        e.poll(k as u64, k);
        e.send_input(&input(k as i32, 0), k as u64);
        e.note_local_frame(k as i32);
        assert!(e.last_received_frame() >= last);
        last = e.last_received_frame();
    }
    assert!(last >= 3);
}

#[test]
fn local_frames_behind_is_held_within_bounds() {
    let mut e = running(1, 0);
    e.note_local_frame(i32::MAX);
    assert_eq!(e.local_frames_behind(), i32::MIN);
    e.note_local_frame(i32::MIN);
    assert_eq!(e.local_frames_behind(), i32::MAX);
    e.note_local_frame(-1);
    assert_eq!(e.local_frames_behind(), 0);
}
