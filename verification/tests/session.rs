use bytes::Bytes;
use ggpo::ggpo::{
    Event, GGPOError, GGPOSessionCallbacks, Network, NetworkStats, Session, TimeSync,
};
use ggpo::network::udp::Datagram;
use ggpo::network::udp_msg::{decode, encode, UdpMsg};
use ggpo::network::udp_proto::ConnState;
use ggpo::p2p::{translate, P2PSession, MAX_SPECTATORS};
use ggpo::network::udp_proto::ProtoEvent;
use ggpo::player::{PeerAddress, Player, PlayerHandle, SPECTATOR_BASE};
use ggpo::sync::MAX_PLAYERS;

/// A game whose whole state is one number, folded over the inputs.
#[derive(Clone, Debug, Default)]
struct Game {
    state: u64,
    frame: i32,
    events: Vec<Event>,
    loads: usize,
    fail_save: bool,
}

fn step(state: u64, inputs: &Vec<Vec<u8>>) -> u64 {
    let mut next = state.wrapping_mul(0x0100_0000_01b3).wrapping_add(0x9e37_79b9);
    for bits in inputs {
        for b in bits {
            next = (next ^ (*b as u64)).wrapping_mul(0x0100_0000_01b3);
        }
        next = next.rotate_left(7);
    }
    next
}

impl GGPOSessionCallbacks for Game {
    fn save_game_state(&mut self, frame: i32) -> Option<(Bytes, Option<u32>)> {
        if self.fail_save {
            return None;
        }
        let mut buffer = self.state.to_le_bytes().to_vec();
        buffer.extend_from_slice(&frame.to_le_bytes());
        Some((Bytes::from(buffer), Some((self.state ^ (self.state >> 32)) as u32)))
    }

    fn load_game_state(&mut self, buffer: &Bytes, length: usize) -> bool {
        assert_eq!(length, 12);
        self.loads += 1;
        let mut raw = [0u8; 8];
        raw.copy_from_slice(&buffer[..8]);
        self.state = u64::from_le_bytes(raw);
        let mut raw = [0u8; 4];
        raw.copy_from_slice(&buffer[8..12]);
        self.frame = i32::from_le_bytes(raw);
        true
    }

    fn log_game_state(&mut self, _filename: String, _buffer: Bytes, _length: usize) -> bool {
        true
    }

    fn free_buffer(&mut self, _buffer: &Bytes) {}

    fn advance_frame(&mut self, inputs: &Vec<Vec<u8>>, _flags: i32) -> bool {
        self.state = step(self.state, inputs);
        self.frame += 1;
        true
    }

    fn on_event(&mut self, info: &Event) {
        self.events.push(*info);
    }
}

const A: PeerAddress = PeerAddress { ip: 0x0a00_0001, port: 7000 };
const B: PeerAddress = PeerAddress { ip: 0x0a00_0002, port: 7001 };

fn session(window: i32) -> P2PSession<Game> {
    P2PSession::new(Game::default(), 2, 1, window, 16).unwrap()
}

/// Two sessions and the wire between them: what one sends reaches the other
/// `delay` milliseconds later.
struct Pair {
    a: P2PSession<Game>,
    b: P2PSession<Game>,
    to_a: Vec<(u64, Datagram)>,
    to_b: Vec<(u64, Datagram)>,
    now: u64,
    delay: u64,
    sent_by_a: Vec<UdpMsg>,
    sent_by_b: Vec<UdpMsg>,
    events_a: Vec<Event>,
    events_b: Vec<Event>,
}

fn due(queue: &mut Vec<(u64, Datagram)>, now: u64, from: PeerAddress) -> Vec<Datagram> {
    let mut out = Vec::new();
    let mut rest = Vec::new();
    for (at, d) in queue.drain(..) {
        if at <= now {
            out.push(Datagram { address: from, payload: d.payload });
        } else {
            rest.push((at, d));
        }
    }
    *queue = rest;
    out
}

impl Pair {
    /// Session `a` plays as player 0 at address A, `b` as player 1 at B.
    fn new(window: i32, delay: u64) -> Pair {
        let mut a = session(window);
        let mut b = session(window);
        assert_eq!(a.add_player(Player::Local), Ok(PlayerHandle(0)));
        assert_eq!(a.add_player(Player::Remote(B)), Ok(PlayerHandle(1)));
        assert_eq!(b.add_player(Player::Remote(A)), Ok(PlayerHandle(0)));
        assert_eq!(b.add_player(Player::Local), Ok(PlayerHandle(1)));
        Pair {
            a,
            b,
            to_a: Vec::new(),
            to_b: Vec::new(),
            now: 0,
            delay,
            sent_by_a: Vec::new(),
            sent_by_b: Vec::new(),
            events_a: Vec::new(),
            events_b: Vec::new(),
        }
    }

    fn tick_a(&mut self) {
        let incoming = due(&mut self.to_a, self.now, B);
        let out = self.a.do_poll(self.now, incoming, self.now as u32 + 1).unwrap();
        for d in out.datagrams {
            assert_eq!(d.address, B);
            self.sent_by_a.push(decode(&d.payload).unwrap());
            self.to_b.push((self.now + self.delay, d));
        }
        self.events_a.extend(out.events);
    }

    fn tick_b(&mut self) {
        let incoming = due(&mut self.to_b, self.now, A);
        let out = self.b.do_poll(self.now, incoming, self.now as u32 + 7).unwrap();
        for d in out.datagrams {
            assert_eq!(d.address, A);
            self.sent_by_b.push(decode(&d.payload).unwrap());
            self.to_a.push((self.now + self.delay, d));
        }
        self.events_b.extend(out.events);
    }

    fn tick(&mut self, ms: u64) {
        self.now += ms;
        self.tick_a();
        self.tick_b();
    }

    fn shake_hands(&mut self) {
        for _ in 0..200 {
            if self.a.connection_state(PlayerHandle(1)) == Some(ConnState::Running)
                && self.b.connection_state(PlayerHandle(0)) == Some(ConnState::Running)
            {
                return;
            }
            self.tick(10);
        }
        panic!("the handshake did not end");
    }
}

fn play(s: &mut P2PSession<Game>, handle: PlayerHandle, value: u8) -> Result<(), GGPOError> {
    s.add_local_input(handle, &vec![value])?;
    let (inputs, _flags) = s.synchronize_input()?;
    let mut game = s.callbacks().clone();
    game.advance_frame(&inputs, 0);
    s.increment_frame()
}

#[test]
fn a_session_refuses_what_cannot_work() {
    assert!(P2PSession::new(Game::default(), MAX_PLAYERS, 1, 8, 10).is_ok());
    assert_eq!(
        P2PSession::new(Game::default(), MAX_PLAYERS + 1, 1, 8, 10).err(),
        Some(GGPOError::InvalidRequest)
    );
    assert_eq!(P2PSession::new(Game::default(), 2, 1, -1, 10).err(), Some(GGPOError::InvalidRequest));
    assert_eq!(P2PSession::new(Game::default(), 2, 1, 8, 0).err(), Some(GGPOError::InvalidRequest));
}

#[test]
fn the_session_holds_the_game_it_was_given() {
    let game = Game { state: 42, frame: 3, ..Game::default() };
    let mut s = P2PSession::new(game, 2, 1, 8, 10).unwrap();
    assert_eq!(s.callbacks().state, 42);
    assert_eq!(s.callbacks().frame, 3);
    // requests that do not call the game leave it as it is
    s.add_player(Player::Local).unwrap();
    s.add_player(Player::Remote(B)).unwrap();
    s.set_frame_delay(PlayerHandle(0), 1).unwrap();
    s.set_disconnect_timeout(900).unwrap();
    s.set_disconnect_notify_start(90).unwrap();
    s.chat(String::from("x")).unwrap();
    s.logv("x").unwrap();
    s.disconnect_player(PlayerHandle(1)).unwrap();
    assert_eq!(s.synchronize_input(), Ok((vec![vec![0], vec![0]], 2)));
    assert_eq!(s.check_determinism(3), Ok(0));
    assert_eq!(s.callbacks().state, 42);
    assert_eq!(s.callbacks().events, vec![]);
    // a tick tells the game what happened
    s.do_poll(0, vec![], 0).unwrap();
    assert_eq!(
        s.callbacks().events,
        vec![Event::DisconnectedFromPeer { player: PlayerHandle(1) }, Event::Running {}]
    );
}

#[test]
fn players_get_their_numbers_and_spectators_theirs() {
    let mut s = P2PSession::new(Game::default(), 3, 1, 8, 10).unwrap();
    assert_eq!(s.add_player(Player::Local), Ok(PlayerHandle(0)));
    assert_eq!(s.add_player(Player::Spectator(A)), Ok(PlayerHandle(SPECTATOR_BASE)));
    assert_eq!(s.add_player(Player::Remote(B)), Ok(PlayerHandle(1)));
    // an address that is taken
    assert_eq!(s.add_player(Player::Remote(A)), Err(GGPOError::InvalidRequest));
    assert_eq!(s.add_player(Player::Spectator(B)), Err(GGPOError::InvalidRequest));
    assert_eq!(
        s.add_player(Player::Spectator(PeerAddress { ip: 9, port: 9 })),
        Ok(PlayerHandle(SPECTATOR_BASE + 1))
    );
    assert_eq!(s.add_player(Player::Local), Ok(PlayerHandle(2)));
    // the session is full
    assert_eq!(s.add_player(Player::Local), Err(GGPOError::PlayerOutOfRange));
    assert_eq!(
        s.add_player(Player::Remote(PeerAddress { ip: 8, port: 8 })),
        Err(GGPOError::PlayerOutOfRange)
    );
    assert_eq!(s.num_peers(), 3);
    assert_eq!(s.sync().num_players(), 3);
    assert_eq!(s.connection_state(PlayerHandle(1)), Some(ConnState::Initializing));
    assert_eq!(s.connection_state(PlayerHandle(SPECTATOR_BASE)), Some(ConnState::Initializing));
    assert_eq!(s.connection_state(PlayerHandle(0)), None);
    assert_eq!(s.connection_state(PlayerHandle(7)), None);
}

#[test]
fn too_many_spectators_are_refused() {
    let mut s = session(8);
    for k in 0..MAX_SPECTATORS {
        assert_eq!(
            s.add_player(Player::Spectator(PeerAddress { ip: 1, port: k as u16 })),
            Ok(PlayerHandle(SPECTATOR_BASE + k))
        );
    }
    assert_eq!(
        s.add_player(Player::Spectator(PeerAddress { ip: 2, port: 0 })),
        Err(GGPOError::TooManySpectators)
    );
    // players can still join
    assert_eq!(s.add_player(Player::Local), Ok(PlayerHandle(0)));
}

#[test]
fn nobody_joins_once_the_game_has_begun() {
    let mut s = session(8);
    assert_eq!(s.add_player(Player::Local), Ok(PlayerHandle(0)));
    assert_eq!(s.add_local_input(PlayerHandle(0), &vec![1]), Ok(()));
    assert_eq!(s.add_player(Player::Local), Err(GGPOError::InvalidRequest));
    assert_eq!(s.add_player(Player::Remote(A)), Err(GGPOError::InvalidRequest));
    assert_eq!(s.add_player(Player::Spectator(A)), Err(GGPOError::InvalidRequest));
}

#[test]
fn a_session_of_local_players_runs_at_once() {
    let mut s = session(8);
    assert_eq!(s.add_player(Player::Local), Ok(PlayerHandle(0)));
    assert_eq!(s.add_player(Player::Local), Ok(PlayerHandle(1)));
    let out = s.do_poll(0, vec![], 0).unwrap();
    assert_eq!(out.events, vec![Event::Running {}]);
    assert_eq!(out.datagrams, vec![]);
    assert_eq!(s.callbacks().events, vec![Event::Running {}]);
    // it is said once
    assert_eq!(s.do_poll(16, vec![], 0).unwrap().events, vec![]);
    for frame in 0..20 {
        assert_eq!(s.current_frame(), frame);
        assert_eq!(s.add_local_input(PlayerHandle(0), &vec![frame as u8]), Ok(()));
        assert_eq!(s.add_local_input(PlayerHandle(1), &vec![2 * frame as u8]), Ok(()));
        assert_eq!(
            s.synchronize_input(),
            Ok((vec![vec![frame as u8], vec![2 * frame as u8]], 0))
        );
        assert_eq!(s.increment_frame(), Ok(()));
    }
}

#[test]
fn nothing_is_played_before_the_handshake_is_done() {
    let mut pair = Pair::new(8, 5);
    assert_eq!(pair.a.add_local_input(PlayerHandle(0), &vec![1]), Err(GGPOError::NotSynchronized));
    assert_eq!(pair.a.synchronize_input(), Err(GGPOError::NotSynchronized));
    pair.tick(10);
    assert_eq!(pair.a.add_local_input(PlayerHandle(0), &vec![1]), Err(GGPOError::NotSynchronized));
    pair.shake_hands();
    assert_eq!(pair.a.add_local_input(PlayerHandle(0), &vec![1]), Ok(()));
}

#[test]
fn a_session_refuses_local_input_for_each_reason() {
    let mut pair = Pair::new(8, 5);
    pair.shake_hands();
    let a = &mut pair.a;
    assert_eq!(a.add_local_input(PlayerHandle(2), &vec![1]), Err(GGPOError::InvalidPlayerHandle));
    assert_eq!(
        a.add_local_input(PlayerHandle(SPECTATOR_BASE), &vec![1]),
        Err(GGPOError::InvalidPlayerHandle)
    );
    assert_eq!(a.add_local_input(PlayerHandle(1), &vec![1]), Err(GGPOError::InvalidPlayerHandle));
    assert_eq!(a.add_local_input(PlayerHandle(0), &vec![1, 2]), Err(GGPOError::InvalidRequest));
    assert_eq!(a.add_local_input(PlayerHandle(0), &vec![1]), Ok(()));
    assert_eq!(a.add_local_input(PlayerHandle(0), &vec![1]), Err(GGPOError::InputDropped));
}

#[test]
fn a_game_that_does_not_save_the_first_state_fails() {
    let mut s = P2PSession::new(Game { fail_save: true, ..Game::default() }, 2, 1, 8, 10).unwrap();
    assert_eq!(s.add_player(Player::Local), Ok(PlayerHandle(0)));
    assert_eq!(s.add_local_input(PlayerHandle(0), &vec![1]), Err(GGPOError::GeneralFailure));
    assert_eq!(s.sync().last_confirmed_frame(0), -1);
}

#[test]
fn the_handshake_ends_within_its_round_trips() {
    let mut pair = Pair::new(8, 50);
    pair.shake_hands();
    let probes = |sent: &Vec<UdpMsg>| {
        sent.iter().filter(|m| matches!(m, UdpMsg::SyncRequest { .. })).count()
    };
    assert_eq!(probes(&pair.sent_by_a), 5);
    assert_eq!(probes(&pair.sent_by_b), 5);
    // five round trips of a hundred milliseconds and the ticks in between
    assert!(pair.now >= 500 && pair.now <= 600);
    let told: Vec<Event> = pair
        .events_a
        .iter()
        .filter(|e| !matches!(e, Event::Timesync { .. }))
        .cloned()
        .collect();
    assert_eq!(
        told,
        vec![
            Event::ConnectedToPeer { player: PlayerHandle(1) },
            Event::SynchronizingWithPeer { count: 1, total: 5 },
            Event::SynchronizingWithPeer { count: 2, total: 5 },
            Event::SynchronizingWithPeer { count: 3, total: 5 },
            Event::SynchronizingWithPeer { count: 4, total: 5 },
            Event::SynchronizingWithPeer { count: 5, total: 5 },
            Event::SynchronizedWithPeer { player: PlayerHandle(1) },
            Event::Running {},
        ]
    );
    assert_eq!(pair.a.callbacks().events, pair.events_a);
}

#[test]
fn the_one_who_runs_ahead_blocks_at_the_window() {
    let mut pair = Pair::new(8, 50);
    pair.shake_hands();
    // b plays on without hearing of a: frames 0 to 7 pass, frame 8 does not
    for frame in 0..8 {
        assert_eq!(pair.b.current_frame(), frame);
        assert_eq!(play(&mut pair.b, PlayerHandle(1), 1), Ok(()));
        pair.now += 1;
        pair.tick_b();
    }
    assert_eq!(pair.b.current_frame(), 8);
    assert_eq!(
        pair.b.add_local_input(PlayerHandle(1), &vec![1]),
        Err(GGPOError::PredictionThreshold)
    );
    // a sends its inputs for frames 0 to 20, one every tick
    let mut blocked_at = Vec::new();
    for frame in 0..=20 {
        while pair.a.add_local_input(PlayerHandle(0), &vec![frame as u8]) != Ok(()) {
            // a is held up in its turn until b's inputs have arrived
            pair.tick(5);
        }
        pair.a.synchronize_input().unwrap();
        pair.a.increment_frame().unwrap();
        pair.tick(5);
        match pair.b.add_local_input(PlayerHandle(1), &vec![1]) {
            Ok(()) => {
                pair.b.synchronize_input().unwrap();
                pair.b.increment_frame().unwrap();
            }
            Err(e) => {
                assert_eq!(e, GGPOError::PredictionThreshold);
                blocked_at.push(pair.b.current_frame());
            }
        }
        // b is never further ahead of what it has of a than the window
        assert!(pair.b.current_frame() - pair.b.sync().last_confirmed_frame(0) <= 9);
    }
    // while nothing of a had arrived, b stood at frame 8
    assert!(blocked_at.len() >= 9);
    assert!(blocked_at.iter().take(9).all(|f| *f == 8));
    for _ in 0..100 {
        pair.tick(5);
    }
    assert_eq!(pair.b.sync().last_confirmed_frame(0), 20);
    assert_eq!(pair.b.sync().confirmed_input(0, 20), Some(vec![20]));
    assert!(pair.b.current_frame() > 8);
}

#[test]
fn both_sides_end_up_in_the_same_state() {
    let mut pair = Pair::new(8, 30);
    pair.shake_hands();
    let mut frames_a = 0u8;
    let mut frames_b = 0u8;
    for round in 0..400 {
        pair.tick(8);
        if frames_a < 60 && round % 2 == 0 {
            if pair.a.add_local_input(PlayerHandle(0), &vec![frames_a.wrapping_mul(3) % 5]).is_ok() {
                pair.a.synchronize_input().unwrap();
                pair.a.increment_frame().unwrap();
                frames_a += 1;
            }
        }
        if frames_b < 60 && round % 3 == 0 {
            if pair.b.add_local_input(PlayerHandle(1), &vec![frames_b / 7]).is_ok() {
                pair.b.synchronize_input().unwrap();
                pair.b.increment_frame().unwrap();
                frames_b += 1;
            }
        }
    }
    assert_eq!(frames_a, 60);
    assert_eq!(frames_b, 60);
    for frame in 0..60 {
        for p in 0..2 {
            assert_eq!(
                pair.a.sync().confirmed_input(p, frame),
                pair.b.sync().confirmed_input(p, frame)
            );
        }
    }
    assert_eq!(pair.a.sync().confirmed_input(0, 59), Some(vec![(59u8.wrapping_mul(3)) % 5]));
    assert_eq!(pair.a.sync().confirmed_input(1, 59), Some(vec![59 / 7]));
    // the watermarks of the remote players have reached the last frame
    assert_eq!(pair.a.sync().last_confirmed_frame(1), 59);
    assert_eq!(pair.b.sync().last_confirmed_frame(0), 59);
    // wrong guesses were replayed on the way
    assert!(pair.a.callbacks().loads + pair.b.callbacks().loads > 0);
    assert_eq!(pair.a.check_determinism(4), Ok(4));
}

#[test]
fn lost_and_late_datagrams_are_made_up_for() {
    let mut pair = Pair::new(8, 20);
    pair.shake_hands();
    let mut frames_a = 0u8;
    let mut frames_b = 0u8;
    let mut seen = 0u32;
    for round in 0..6000 {
        pair.tick(4);
        // of the datagrams sent in this tick, every seventh is lost and every
        // eleventh is late
        let mut kept = Vec::new();
        for (at, d) in pair.to_a.drain(..).chain(pair.to_b.drain(..)) {
            if at != pair.now + 20 {
                kept.push((at, d));
                continue;
            }
            seen += 1;
            if seen % 7 == 0 {
                continue;
            }
            let at = if seen % 11 == 0 { at + 37 } else { at };
            kept.push((at, d));
        }
        for (at, d) in kept {
            if d.address == A {
                pair.to_a.push((at, d));
            } else {
                pair.to_b.push((at, d));
            }
        }
        if frames_a < 40 && pair.a.add_local_input(PlayerHandle(0), &vec![frames_a % 3]).is_ok() {
            pair.a.synchronize_input().unwrap();
            pair.a.increment_frame().unwrap();
            frames_a += 1;
        }
        if frames_b < 40 && round % 2 == 0
            && pair.b.add_local_input(PlayerHandle(1), &vec![frames_b % 4]).is_ok()
        {
            pair.b.synchronize_input().unwrap();
            pair.b.increment_frame().unwrap();
            frames_b += 1;
        }
    }
    assert_eq!((frames_a, frames_b), (40, 40));
    assert_eq!(pair.a.sync().last_confirmed_frame(1), 39);
    assert_eq!(pair.b.sync().last_confirmed_frame(0), 39);
    for frame in 0..40 {
        assert_eq!(pair.b.sync().confirmed_input(0, frame), Some(vec![(frame % 3) as u8]));
        assert_eq!(pair.a.sync().confirmed_input(1, frame), Some(vec![(frame % 4) as u8]));
    }
    assert_eq!(pair.a.connection_state(PlayerHandle(1)), Some(ConnState::Running));
    assert_eq!(pair.b.connection_state(PlayerHandle(0)), Some(ConnState::Running));
}

#[test]
fn a_bad_line_slows_the_game_but_does_not_stop_it() {
    let mut pair = Pair::new(8, 20);
    pair.shake_hands();
    let mut frames_a = 0u8;
    let mut frames_b = 0u8;
    let mut dice = 12345u32;
    for _ in 0..15000 {
        pair.tick(4);
        // three datagrams in ten are lost
        let mut kept = Vec::new();
        for (at, d) in pair.to_a.drain(..).chain(pair.to_b.drain(..)) {
            if at == pair.now + 20 {
                dice = dice.wrapping_mul(1_103_515_245).wrapping_add(12345);
                if (dice >> 16) % 10 < 3 {
                    continue;
                }
            }
            kept.push((at, d));
        }
        for (at, d) in kept {
            if d.address == A {
                pair.to_a.push((at, d));
            } else {
                pair.to_b.push((at, d));
            }
        }
        if frames_a < 30 && pair.a.add_local_input(PlayerHandle(0), &vec![frames_a % 3]).is_ok() {
            pair.a.synchronize_input().unwrap();
            pair.a.increment_frame().unwrap();
            frames_a += 1;
        }
        if frames_b < 30 && pair.b.add_local_input(PlayerHandle(1), &vec![frames_b % 4]).is_ok() {
            pair.b.synchronize_input().unwrap();
            pair.b.increment_frame().unwrap();
            frames_b += 1;
        }
    }
    assert_eq!((frames_a, frames_b), (30, 30));
    assert_eq!(pair.a.sync().last_confirmed_frame(1), 29);
    assert_eq!(pair.b.sync().last_confirmed_frame(0), 29);
}

#[test]
fn a_peer_that_falls_silent_is_given_up() {
    let mut pair = Pair::new(8, 5);
    pair.shake_hands();
    pair.events_a.clear();
    let start = pair.now;
    let mut told = Vec::new();
    for _ in 0..600 {
        pair.now += 10;
        pair.tick_a();
        for e in pair.events_a.drain(..) {
            if !matches!(e, Event::Timesync { .. }) {
                told.push((pair.now - start, e));
            }
        }
    }
    assert_eq!(told.len(), 2);
    assert_eq!(
        told[0].1,
        Event::ConnectionInterrupted { player: PlayerHandle(1), disconnect_timeout: 4250 }
    );
    assert_eq!(told[1].1, Event::DisconnectedFromPeer { player: PlayerHandle(1) });
    assert!(told[0].0 > 750 && told[0].0 <= 770);
    assert!(told[1].0 >= 4980 && told[1].0 <= 5000);
    assert_eq!(pair.a.connection_state(PlayerHandle(1)), Some(ConnState::Disconnected));
    // the player takes part no more: its flag is set and nobody waits for it
    for frame in 0..20 {
        assert_eq!(pair.a.add_local_input(PlayerHandle(0), &vec![frame]), Ok(()));
        assert_eq!(pair.a.synchronize_input(), Ok((vec![vec![frame], vec![0]], 2)));
        assert_eq!(pair.a.increment_frame(), Ok(()));
    }
}

#[test]
fn the_timeouts_of_the_session_reach_its_connections() {
    let mut pair = Pair::new(8, 5);
    assert_eq!(pair.a.set_disconnect_timeout(1000), Ok(()));
    assert_eq!(pair.a.set_disconnect_notify_start(100), Ok(()));
    pair.shake_hands();
    pair.events_a.clear();
    let start = pair.now;
    for _ in 0..200 {
        pair.now += 10;
        pair.tick_a();
    }
    assert_eq!(
        pair.events_a
            .iter()
            .filter(|e| !matches!(e, Event::Timesync { .. }))
            .cloned()
            .collect::<Vec<_>>(),
        vec![
            Event::ConnectionInterrupted { player: PlayerHandle(1), disconnect_timeout: 900 },
            Event::DisconnectedFromPeer { player: PlayerHandle(1) },
        ]
    );
    assert!(pair.now - start >= 1000);
}

#[test]
fn a_peer_is_interrupted_before_it_is_given_up() {
    let mut s = session(8);
    s.add_player(Player::Remote(B)).unwrap();
    // 750 and 5000 to begin with
    assert_eq!(s.set_disconnect_notify_start(5001), Err(GGPOError::InvalidRequest));
    assert_eq!(s.set_disconnect_timeout(749), Err(GGPOError::InvalidRequest));
    assert_eq!(s.set_disconnect_notify_start(5000), Ok(()));
    assert_eq!(s.set_disconnect_timeout(5000), Ok(()));
    assert_eq!(s.set_disconnect_timeout(4999), Err(GGPOError::InvalidRequest));
    assert_eq!(s.set_disconnect_notify_start(0), Ok(()));
    assert_eq!(s.set_disconnect_timeout(0), Ok(()));
    assert_eq!(s.set_disconnect_notify_start(1), Err(GGPOError::InvalidRequest));
}

#[test]
fn a_refused_input_changes_nothing() {
    // nothing is saved for a request that is refused
    let mut s = P2PSession::new(Game { fail_save: true, ..Game::default() }, 2, 1, 8, 10).unwrap();
    s.add_player(Player::Local).unwrap();
    assert_eq!(s.add_local_input(PlayerHandle(0), &vec![1, 2]), Err(GGPOError::InvalidRequest));
    assert_eq!(s.add_local_input(PlayerHandle(1), &vec![1]), Err(GGPOError::InvalidPlayerHandle));
    assert_eq!(s.sync().num_checkpoints(), 0);
    let mut s = session(0);
    s.add_player(Player::Local).unwrap();
    s.add_player(Player::Remote(B)).unwrap();
    s.disconnect_player(PlayerHandle(1)).unwrap();
    assert_eq!(s.add_local_input(PlayerHandle(0), &vec![1, 2]), Err(GGPOError::InvalidRequest));
    assert_eq!(s.sync().num_checkpoints(), 0);
    assert_eq!(s.sync().last_confirmed_frame(0), -1);
    // the players can still be told apart from a game that has begun
    assert_eq!(s.add_player(Player::Local), Err(GGPOError::PlayerOutOfRange));
}

#[test]
fn a_tick_fails_when_the_replay_does() {
    // a session that keeps one checkpoint only
    let mut s = P2PSession::new(Game::default(), 2, 1, 8, 1).unwrap();
    s.add_player(Player::Local).unwrap();
    s.add_player(Player::Remote(B)).unwrap();
    let mut now = 0;
    assert!(s.do_poll(now, vec![], 5).is_ok());
    for _ in 0..5 {
        // every probe carries the nonce 5, and is answered with it
        let answer = Datagram { address: B, payload: encode(&UdpMsg::SyncReply { nonce: 5 }) };
        now += 1;
        assert!(s.do_poll(now, vec![answer], 5).is_ok());
    }
    assert_eq!(s.connection_state(PlayerHandle(1)), Some(ConnState::Running));
    for frame in 0..3 {
        play(&mut s, PlayerHandle(0), frame).unwrap();
    }
    // the peer's input for frame 0 is not what was guessed, and the
    // checkpoint of frame 0 is gone
    let payload = encode(&UdpMsg::Input { frame: 0, bits: vec![9], ack_frame: -1, sequence: 0 });
    let failed = s.do_poll(now, vec![Datagram { address: B, payload }], 1);
    assert_eq!(failed.err(), Some(GGPOError::GeneralFailure));
    // what arrived was taken all the same
    assert_eq!(s.sync().last_confirmed_frame(1), 0);
    assert!(s.sync().in_rollback());
    assert_eq!(s.callbacks().loads, 0);
    // from now on every tick fails, and no input is taken
    assert_eq!(s.do_poll(now + 1, vec![], 1).err(), Some(GGPOError::InRollback));
    assert_eq!(s.add_local_input(PlayerHandle(0), &vec![1]), Err(GGPOError::InRollback));
}

#[test]
fn a_replay_that_comes_out_otherwise_is_reported() {
    // the game is advanced behind the session's back, so the states that the
    // replay saves differ from those saved the first time
    let mut s = session(8);
    s.add_player(Player::Local).unwrap();
    for frame in 0..3 {
        assert_eq!(s.add_local_input(PlayerHandle(0), &vec![frame]), Ok(()));
        s.synchronize_input().unwrap();
        assert_eq!(s.increment_frame(), Ok(()));
    }
    assert_eq!(s.check_determinism(2), Err(GGPOError::GeneralFailure));
    assert!(s.sync().in_rollback());
    assert_eq!(s.do_poll(0, vec![], 0).err(), Some(GGPOError::InRollback));
}

#[test]
fn participants_are_sent_away() {
    let mut s = P2PSession::new(Game::default(), 3, 1, 8, 10).unwrap();
    s.add_player(Player::Local).unwrap();
    s.add_player(Player::Remote(B)).unwrap();
    s.add_player(Player::Spectator(A)).unwrap();
    assert_eq!(s.disconnect_player(PlayerHandle(0)), Err(GGPOError::InvalidRequest));
    assert_eq!(s.disconnect_player(PlayerHandle(2)), Err(GGPOError::InvalidPlayerHandle));
    assert_eq!(
        s.disconnect_player(PlayerHandle(SPECTATOR_BASE + 1)),
        Err(GGPOError::InvalidPlayerHandle)
    );
    assert_eq!(s.disconnect_player(PlayerHandle(1)), Ok(()));
    assert_eq!(s.disconnect_player(PlayerHandle(1)), Err(GGPOError::PlayerDisconnected));
    assert_eq!(s.disconnect_player(PlayerHandle(SPECTATOR_BASE)), Ok(()));
    assert_eq!(s.connection_state(PlayerHandle(1)), Some(ConnState::Disconnected));
    assert_eq!(s.sync().disconnect_flags(), 2);
    // the game is told at the next tick
    let out = s.do_poll(0, vec![], 0).unwrap();
    assert_eq!(
        out.events,
        vec![
            Event::DisconnectedFromPeer { player: PlayerHandle(1) },
            Event::DisconnectedFromPeer { player: PlayerHandle(SPECTATOR_BASE) },
            Event::Running {},
        ]
    );
    assert_eq!(out.datagrams, vec![]);
}

#[test]
fn statistics_are_given_for_every_participant() {
    let mut pair = Pair::new(8, 20);
    pair.shake_hands();
    assert_eq!(pair.a.get_network_stats(PlayerHandle(0)), Ok(NetworkStats::new()));
    assert_eq!(
        pair.a.get_network_stats(PlayerHandle(2)),
        Err(GGPOError::InvalidPlayerHandle)
    );
    let stats = pair.a.get_network_stats(PlayerHandle(1)).unwrap();
    assert_eq!(stats.network.ping, 40);
    assert_eq!(stats.network.send_queue_len, 0);
    assert_eq!(stats.timesync, TimeSync { local_frames_behind: -1, remote_frames_behind: 0 });
    for frame in 0..3 {
        play(&mut pair.a, PlayerHandle(0), frame).unwrap();
    }
    let stats = pair.a.get_network_stats(PlayerHandle(1)).unwrap();
    assert_eq!(stats.network.send_queue_len, 3);
    assert_eq!(stats.network.recv_queue_len, 0);
    assert_ne!(stats.network, Network::new());
}

#[test]
fn frame_delay_is_set_for_local_players_only() {
    let mut pair = Pair::new(8, 5);
    assert_eq!(pair.a.set_frame_delay(PlayerHandle(0), 2), Ok(()));
    assert_eq!(pair.a.set_frame_delay(PlayerHandle(0), -2), Err(GGPOError::InvalidRequest));
    assert_eq!(pair.a.set_frame_delay(PlayerHandle(1), 2), Err(GGPOError::InvalidPlayerHandle));
    assert_eq!(pair.a.set_frame_delay(PlayerHandle(5), 2), Err(GGPOError::InvalidPlayerHandle));
    pair.shake_hands();
    pair.sent_by_a.clear();
    assert_eq!(pair.a.add_local_input(PlayerHandle(0), &vec![9]), Ok(()));
    pair.tick(1);
    // the frames that the delay left open are sent along
    let inputs: Vec<(i32, Vec<u8>)> = pair
        .sent_by_a
        .iter()
        .filter_map(|m| match m {
            UdpMsg::Input { frame, bits, .. } => Some((*frame, bits.clone())),
            _ => None,
        })
        .collect();
    assert_eq!(inputs, vec![(0, vec![0]), (1, vec![0]), (2, vec![9])]);
}

#[test]
fn chat_and_log_are_accepted() {
    let mut s = session(8);
    assert_eq!(s.chat(String::from("hello")), Ok(()));
    assert_eq!(s.logv("a line"), Ok(()));
}

#[test]
fn datagrams_from_strangers_and_rubbish_are_dropped() {
    let mut pair = Pair::new(8, 5);
    let stranger = PeerAddress { ip: 1, port: 1 };
    let out = pair
        .a
        .do_poll(
            0,
            vec![
                Datagram { address: stranger, payload: encode(&UdpMsg::SyncRequest { nonce: 1 }) },
                Datagram { address: B, payload: vec![1, 2, 3] },
                Datagram { address: B, payload: encode(&UdpMsg::SyncRequest { nonce: 2 }) },
            ],
            77,
        )
        .unwrap();
    let sent: Vec<UdpMsg> = out.datagrams.iter().map(|d| decode(&d.payload).unwrap()).collect();
    assert_eq!(sent, vec![UdpMsg::SyncReply { nonce: 2 }, UdpMsg::SyncRequest { nonce: 77 }]);
    assert!(out.datagrams.iter().all(|d| d.address == B));
}

#[test]
fn events_are_translated() {
    let h = PlayerHandle(3);
    assert_eq!(translate(h, &ProtoEvent::Connected), Some(Event::ConnectedToPeer { player: h }));
    assert_eq!(
        translate(h, &ProtoEvent::Synchronizing { count: 2, total: u32::MAX }),
        Some(Event::SynchronizingWithPeer { count: 2, total: i32::MAX })
    );
    assert_eq!(
        translate(h, &ProtoEvent::Synchronized),
        Some(Event::SynchronizedWithPeer { player: h })
    );
    assert_eq!(translate(h, &ProtoEvent::Input { frame: 1, bits: vec![1] }), None);
    assert_eq!(
        translate(h, &ProtoEvent::Disconnected),
        Some(Event::DisconnectedFromPeer { player: h })
    );
    assert_eq!(
        translate(h, &ProtoEvent::NetworkInterrupted { disconnect_timeout: u64::MAX }),
        Some(Event::ConnectionInterrupted { player: h, disconnect_timeout: i32::MAX })
    );
    assert_eq!(
        translate(h, &ProtoEvent::NetworkResumed),
        Some(Event::ConnectionResumed { player: h })
    );
}
