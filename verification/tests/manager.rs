use bytes::Bytes;
use ggpo::game_input::NULL_FRAME;
use ggpo::ggpo::{Event, GGPOError, GGPOSessionCallbacks};
use ggpo::sync::{checksum_contradicts, SavedState, Slot, Sync, MAX_PLAYERS};

/// A game whose whole state is one number, folded over the inputs.
#[derive(Clone, Debug, Default)]
struct Game {
    state: u64,
    saves: usize,
    loads: Vec<(usize, usize)>,
    freed: usize,
    advanced: Vec<Vec<Vec<u8>>>,
    fail_save_at: Option<i32>,
    fail_load: bool,
    fail_advance: bool,
    noise: u64,
}

fn step(state: u64, inputs: &Vec<Vec<u8>>) -> u64 {
    let mut next = state.wrapping_mul(0x0100_0000_01b3).wrapping_add(0x9e37_79b9);
    for bits in inputs {
        for b in bits {
            next = (next ^ (*b as u64)).wrapping_mul(0x0100_0000_01b3);
        }
        next = next.rotate_left(7);
    }
    next
}

fn checksum(state: u64) -> u32 {
    (state ^ (state >> 32)) as u32
}

impl GGPOSessionCallbacks for Game {
    fn save_game_state(&mut self, frame: i32) -> Option<(Bytes, Option<u32>)> {
        if self.fail_save_at == Some(frame) {
            return None;
        }
        self.saves += 1;
        let mut buffer = self.state.to_le_bytes().to_vec();
        buffer.extend_from_slice(&frame.to_le_bytes());
        Some((Bytes::from(buffer), Some(checksum(self.state.wrapping_add(self.noise)))))
    }

    fn load_game_state(&mut self, buffer: &Bytes, length: usize) -> bool {
        self.loads.push((length, buffer.len()));
        if self.fail_load {
            return false;
        }
        let mut raw = [0u8; 8];
        raw.copy_from_slice(&buffer[..8]);
        self.state = u64::from_le_bytes(raw);
        true
    }

    fn log_game_state(&mut self, _filename: String, _buffer: Bytes, _length: usize) -> bool {
        true
    }

    fn free_buffer(&mut self, _buffer: &Bytes) {
        self.freed += 1;
    }

    fn advance_frame(&mut self, inputs: &Vec<Vec<u8>>, _flags: i32) -> bool {
        if self.fail_advance {
            return false;
        }
        self.advanced.push(inputs.clone());
        self.state = step(self.state, inputs);
        true
    }

    fn on_event(&mut self, _info: &Event) {}
}

/// A manager with local player 0 and remote player 1, inputs of one byte.
fn two_players(window: i32, checkpoints: usize) -> Sync {
    let mut sync = Sync::new(1, window, checkpoints).unwrap();
    assert_eq!(sync.add_player(false), Ok(0));
    assert_eq!(sync.add_player(true), Ok(1));
    sync
}

/// Plays one frame the way a game loop does.
fn play(sync: &mut Sync, game: &mut Game, local: u8) {
    assert_eq!(sync.add_local_input(0, &vec![local]), Ok(sync.current_frame()));
    let (inputs, flags) = sync.synchronize_input();
    assert!(game.advance_frame(&inputs, flags));
    assert_eq!(sync.increment_frame(game), Ok(()));
}

#[test]
fn new_refuses_a_negative_window_and_an_empty_list() {
    assert!(Sync::new(1, 0, 1).is_ok());
    assert_eq!(Sync::new(1, -1, 1).err(), Some(GGPOError::InvalidRequest));
    assert_eq!(Sync::new(1, 8, 0).err(), Some(GGPOError::InvalidRequest));
}

#[test]
fn a_new_manager_is_empty() {
    let sync = Sync::new(4, 8, 10).unwrap();
    assert_eq!(sync.num_players(), 0);
    assert_eq!(sync.input_size(), 4);
    assert_eq!(sync.current_frame(), 0);
    assert!(!sync.in_rollback());
    assert_eq!(sync.num_checkpoints(), 0);
    assert_eq!(sync.min_confirmed_frame(), i32::MAX);
    assert_eq!(sync.first_incorrect_frame(), NULL_FRAME);
    assert_eq!(sync.disconnect_flags(), 0);
    assert_eq!(sync.slot(0), None);
    assert_eq!(sync.last_confirmed_frame(0), NULL_FRAME);
    assert_eq!(sync.find_checkpoint(0), None);
}

#[test]
fn players_join_until_the_manager_is_full() {
    let mut sync = Sync::new(1, 8, 10).unwrap();
    for p in 0..MAX_PLAYERS {
        assert_eq!(sync.add_player(p % 2 == 1), Ok(p));
    }
    assert_eq!(sync.add_player(true), Err(GGPOError::PlayerOutOfRange));
    assert_eq!(sync.num_players(), MAX_PLAYERS);
    assert_eq!(sync.slot(1), Some(Slot { remote: true, connected: true, frame_delay: 0 }));
    assert_eq!(sync.slot(2), Some(Slot { remote: false, connected: true, frame_delay: 0 }));
}

#[test]
fn local_input_is_refused_for_each_reason() {
    let mut sync = two_players(2, 10);
    assert_eq!(sync.add_local_input(2, &vec![1]), Err(GGPOError::PlayerOutOfRange));
    assert_eq!(sync.add_local_input(1, &vec![1]), Err(GGPOError::InvalidPlayerHandle));
    assert_eq!(sync.add_local_input(0, &vec![1, 2]), Err(GGPOError::InvalidRequest));
    assert_eq!(sync.add_local_input(0, &vec![]), Err(GGPOError::InvalidRequest));
    assert_eq!(sync.add_local_input(0, &vec![1]), Ok(0));
    // the frame holds an input already
    assert_eq!(sync.add_local_input(0, &vec![1]), Err(GGPOError::InputDropped));
    assert_eq!(sync.last_confirmed_frame(0), 0);
}

#[test]
fn prediction_threshold_is_exact() {
    let mut game = Game::default();
    let mut sync = two_players(8, 20);
    assert!(sync.save_current_frame(&mut game));
    // nothing of the remote player is confirmed: its watermark is -1, so
    // frames 0 to 7 are within the window and frame 8 is not
    for frame in 0..8 {
        assert_eq!(sync.current_frame(), frame);
        play(&mut sync, &mut game, frame as u8);
    }
    assert_eq!(sync.current_frame(), 8);
    assert_eq!(sync.min_confirmed_frame(), -1);
    assert_eq!(sync.add_local_input(0, &vec![8]), Err(GGPOError::PredictionThreshold));
    assert_eq!(sync.last_confirmed_frame(0), 7);
    // one confirmed frame of the remote player lets one more frame through
    assert!(sync.add_remote_input(1, 0, &vec![0]));
    assert_eq!(sync.min_confirmed_frame(), 0);
    play(&mut sync, &mut game, 8);
    assert_eq!(sync.add_local_input(0, &vec![9]), Err(GGPOError::PredictionThreshold));
}

#[test]
fn a_window_of_zero_waits_for_every_input() {
    let mut game = Game::default();
    let mut sync = two_players(0, 4);
    assert!(sync.save_current_frame(&mut game));
    assert_eq!(sync.add_local_input(0, &vec![1]), Err(GGPOError::PredictionThreshold));
    assert!(sync.add_remote_input(1, 0, &vec![5]));
    // 0 - 0 > 0 does not hold
    play(&mut sync, &mut game, 1);
    assert_eq!(sync.add_local_input(0, &vec![1]), Err(GGPOError::PredictionThreshold));
}

#[test]
fn only_remote_players_that_take_part_are_waited_for() {
    let mut game = Game::default();
    let mut sync = two_players(1, 10);
    assert!(sync.save_current_frame(&mut game));
    play(&mut sync, &mut game, 1);
    assert_eq!(sync.add_local_input(0, &vec![2]), Err(GGPOError::PredictionThreshold));
    assert_eq!(sync.disconnect_player(1), Ok(()));
    assert_eq!(sync.disconnect_player(1), Err(GGPOError::PlayerDisconnected));
    assert_eq!(sync.disconnect_player(2), Err(GGPOError::PlayerOutOfRange));
    assert_eq!(sync.min_confirmed_frame(), i32::MAX);
    assert_eq!(sync.disconnect_flags(), 2);
    play(&mut sync, &mut game, 2);
    play(&mut sync, &mut game, 3);
    // a player that was sent away confirms nothing any more
    assert!(!sync.add_remote_input(1, 0, &vec![1]));
}

#[test]
fn remote_input_is_taken_in_order_only() {
    let mut sync = two_players(8, 10);
    assert!(!sync.add_remote_input(1, 1, &vec![1]));
    assert!(!sync.add_remote_input(1, -1, &vec![1]));
    assert!(!sync.add_remote_input(0, 0, &vec![1]));
    assert!(!sync.add_remote_input(2, 0, &vec![1]));
    assert!(!sync.add_remote_input(1, 0, &vec![1, 2]));
    assert!(sync.add_remote_input(1, 0, &vec![1]));
    assert!(!sync.add_remote_input(1, 0, &vec![1]));
    assert!(sync.add_remote_input(1, 1, &vec![2]));
    assert_eq!(sync.last_confirmed_frame(1), 1);
    assert_eq!(sync.confirmed_input(1, 1), Some(vec![2]));
    assert_eq!(sync.confirmed_input(1, 2), None);
    assert_eq!(sync.confirmed_input(5, 0), None);
}

#[test]
fn synchronize_hands_out_confirmed_and_guessed_inputs() {
    let mut game = Game::default();
    let mut sync = two_players(8, 10);
    assert!(sync.save_current_frame(&mut game));
    assert!(sync.add_remote_input(1, 0, &vec![7]));
    assert_eq!(sync.add_local_input(0, &vec![3]), Ok(0));
    assert_eq!(sync.synchronize_input(), (vec![vec![3], vec![7]], 0));
    assert_eq!(sync.increment_frame(&mut game), Ok(()));
    assert_eq!(sync.add_local_input(0, &vec![4]), Ok(1));
    // the remote input of frame 1 is not known: the last one is repeated
    assert_eq!(sync.synchronize_input(), (vec![vec![4], vec![7]], 0));
    assert_eq!(sync.first_incorrect_frame(), NULL_FRAME);
}

#[test]
fn frame_delay_puts_the_input_off() {
    let mut game = Game::default();
    let mut sync = two_players(8, 10);
    assert_eq!(sync.set_frame_delay(0, 2), Ok(()));
    assert_eq!(sync.set_frame_delay(0, -1), Err(GGPOError::InvalidRequest));
    assert_eq!(sync.set_frame_delay(1, 2), Err(GGPOError::InvalidPlayerHandle));
    assert_eq!(sync.set_frame_delay(2, 2), Err(GGPOError::PlayerOutOfRange));
    assert_eq!(sync.slot(0), Some(Slot { remote: false, connected: true, frame_delay: 2 }));
    assert!(sync.save_current_frame(&mut game));
    // the input given at frame 0 takes effect at frame 2; frames 0 and 1
    // repeat the most recent input, of which there is none: they are blank
    assert_eq!(sync.add_local_input(0, &vec![9]), Ok(2));
    assert_eq!(sync.confirmed_input(0, 0), Some(vec![0]));
    assert_eq!(sync.confirmed_input(0, 1), Some(vec![0]));
    assert_eq!(sync.confirmed_input(0, 2), Some(vec![9]));
    assert_eq!(sync.synchronize_input().0[0], vec![0]);
    assert_eq!(sync.increment_frame(&mut game), Ok(()));
    assert_eq!(sync.add_local_input(0, &vec![8]), Ok(3));
    // a shorter delay aims at a frame that is filled: the input is dropped
    assert_eq!(sync.set_frame_delay(0, 0), Ok(()));
    assert_eq!(sync.add_local_input(0, &vec![7]), Err(GGPOError::InputDropped));
    // a longer one leaves frames open, which repeat the last input
    assert_eq!(sync.set_frame_delay(0, 5), Ok(()));
    assert_eq!(sync.add_local_input(0, &vec![6]), Ok(6));
    assert_eq!(sync.confirmed_input(0, 4), Some(vec![8]));
    assert_eq!(sync.confirmed_input(0, 5), Some(vec![8]));
    assert_eq!(sync.confirmed_input(0, 6), Some(vec![6]));
}

#[test]
fn an_input_beyond_the_last_frame_fails() {
    let mut sync = two_players(8, 10);
    assert_eq!(sync.set_frame_delay(0, i32::MAX), Ok(()));
    let mut game = Game::default();
    assert!(sync.save_current_frame(&mut game));
    assert!(sync.add_remote_input(1, 0, &vec![0]));
    assert!(sync.advance_frame());
    assert_eq!(sync.add_local_input(0, &vec![1]), Err(GGPOError::GeneralFailure));
}

#[test]
fn checkpoints_are_kept_up_to_the_bound() {
    let mut game = Game::default();
    let mut sync = two_players(50, 3);
    assert!(sync.save_current_frame(&mut game));
    assert_eq!(sync.num_checkpoints(), 1);
    for frame in 0..6 {
        play(&mut sync, &mut game, frame);
    }
    assert_eq!(sync.num_checkpoints(), 3);
    // frames 4, 5 and 6 are kept
    assert_eq!(sync.find_checkpoint(3), None);
    assert_eq!(sync.find_checkpoint(4), Some(0));
    assert_eq!(sync.find_checkpoint(5), Some(1));
    assert_eq!(sync.find_checkpoint(100), Some(2));
    assert_eq!(game.freed, 4);
    assert_eq!(game.saves, 7);
}

#[test]
fn what_the_game_hands_over_is_stored() {
    let mut sync = two_players(8, 2);
    assert!(sync.advance_frame());
    // nothing handed over: nothing stored, nothing dropped
    let (taken, dropped) = sync.take_saved(None);
    assert!(!taken);
    assert_eq!(dropped.len(), 0);
    assert_eq!(sync.num_checkpoints(), 0);
    let (taken, dropped) = sync.take_saved(Some((Bytes::from(vec![1, 2, 3]), Some(7))));
    assert!(taken);
    assert_eq!(dropped.len(), 0);
    assert_eq!(sync.num_checkpoints(), 1);
    assert_eq!(sync.find_checkpoint(1), Some(0));
    assert_eq!(sync.find_checkpoint(0), None);
    // the same frame again takes the place of the first
    let (taken, dropped) = sync.take_saved(Some((Bytes::from(vec![4]), None)));
    assert!(taken);
    assert_eq!(dropped.len(), 1);
    assert_eq!(dropped[0].frame, 1);
    assert_eq!(dropped[0].checksum, Some(7));
    assert_eq!(dropped[0].buffer, Bytes::from(vec![1, 2, 3]));
    assert_eq!(sync.num_checkpoints(), 1);
    // beyond the bound the oldest goes
    assert!(sync.advance_frame());
    assert_eq!(sync.take_saved(Some((Bytes::new(), None))).1.len(), 0);
    assert!(sync.advance_frame());
    let (_, dropped) = sync.take_saved(Some((Bytes::new(), None)));
    assert_eq!(dropped.iter().map(|s| s.frame).collect::<Vec<_>>(), vec![1]);
    assert_eq!(sync.num_checkpoints(), 2);
}

#[test]
fn a_replay_takes_what_the_game_saved_unless_it_diverges() {
    let state = |frame: i32, checksum: Option<u32>| SavedState {
        frame,
        buffer: Bytes::from(vec![frame as u8]),
        checksum,
    };
    let stale = vec![state(1, Some(10)), state(2, None), state(3, Some(30))];
    let mut sync = two_players(8, 4);
    assert!(sync.advance_frame());
    // nothing saved: the replay is given up, nothing is stored or let go
    let (taken, released) = sync.take_replayed(&stale, 5, None);
    assert_eq!(taken, Err(GGPOError::GeneralFailure));
    assert_eq!(released.len(), 0);
    assert_eq!(sync.num_checkpoints(), 0);
    // another checksum than the first time: given up, and the state let go
    let (taken, released) = sync.take_replayed(&stale, 5, Some((Bytes::from(vec![7]), Some(11))));
    assert_eq!(taken, Err(GGPOError::GeneralFailure));
    assert_eq!(released.len(), 1);
    assert_eq!(released[0].frame, 1);
    assert_eq!(released[0].checksum, Some(11));
    assert_eq!(released[0].buffer, Bytes::from(vec![7]));
    assert_eq!(sync.num_checkpoints(), 0);
    // beyond the frames that must come out the same nothing is compared
    let (taken, released) = sync.take_replayed(&stale, 0, Some((Bytes::new(), Some(11))));
    assert_eq!(taken, Ok(()));
    assert_eq!(released.len(), 0);
    assert_eq!(sync.num_checkpoints(), 1);
    // the same checksum: stored, in the place of the state stored before
    let (taken, released) = sync.take_replayed(&stale, 5, Some((Bytes::new(), Some(10))));
    assert_eq!(taken, Ok(()));
    assert_eq!(released.iter().map(|s| (s.frame, s.checksum)).collect::<Vec<_>>(), vec![(1, Some(11))]);
    // no checksum on either side: nothing to compare
    assert!(sync.advance_frame());
    assert_eq!(sync.take_replayed(&stale, 5, Some((Bytes::new(), Some(5)))).0, Ok(()));
    assert!(sync.advance_frame());
    assert_eq!(sync.take_replayed(&stale, 5, Some((Bytes::new(), None))).0, Ok(()));
    assert_eq!(sync.num_checkpoints(), 3);
    sync.store_checkpoint(state(3, None));
    assert_eq!(
        sync.take_replayed(&stale, 3, Some((Bytes::new(), Some(31)))).0,
        Err(GGPOError::GeneralFailure)
    );
}

#[test]
fn a_request_is_judged_without_being_taken() {
    let mut game = Game::default();
    let mut sync = two_players(1, 4);
    assert_eq!(sync.judge_local_input(0, &vec![1]), Ok(0));
    assert_eq!(sync.judge_local_input(0, &vec![1]), Ok(0));
    assert_eq!(sync.last_confirmed_frame(0), -1);
    assert_eq!(sync.judge_local_input(0, &vec![1, 2]), Err(GGPOError::InvalidRequest));
    assert_eq!(sync.judge_local_input(1, &vec![1]), Err(GGPOError::InvalidPlayerHandle));
    assert_eq!(sync.judge_local_input(2, &vec![1]), Err(GGPOError::PlayerOutOfRange));
    assert!(sync.save_current_frame(&mut game));
    play(&mut sync, &mut game, 1);
    assert_eq!(sync.judge_local_input(0, &vec![1]), Err(GGPOError::PredictionThreshold));
    assert!(sync.add_remote_input(1, 0, &vec![3]));
    assert_eq!(sync.judge_local_input(0, &vec![1]), Err(GGPOError::InRollback));
}

#[test]
fn a_save_that_fails_is_reported() {
    let mut game = Game { fail_save_at: Some(1), ..Game::default() };
    let mut sync = two_players(8, 10);
    assert!(sync.save_current_frame(&mut game));
    assert_eq!(sync.add_local_input(0, &vec![1]), Ok(0));
    sync.synchronize_input();
    assert_eq!(sync.increment_frame(&mut game), Err(GGPOError::GeneralFailure));
    // the frame counter has moved all the same
    assert_eq!(sync.current_frame(), 1);
    assert_eq!(sync.num_checkpoints(), 1);
    assert!(!sync.save_current_frame(&mut game));
}

#[test]
fn a_wrong_guess_is_replayed_with_the_confirmed_input() {
    let mut game = Game::default();
    let mut sync = two_players(8, 10);
    assert!(sync.save_current_frame(&mut game));
    for frame in 0..5 {
        play(&mut sync, &mut game, 10 + frame);
    }
    let speculative = game.state;
    // the remote player pressed 9 all along; the guess was the blank input
    for frame in 0..5 {
        assert!(sync.add_remote_input(1, frame, &vec![9]));
    }
    assert_eq!(sync.first_incorrect_frame(), 0);
    game.advanced.clear();
    assert_eq!(sync.rollback(&mut game), Ok(5));
    assert_eq!(sync.first_incorrect_frame(), NULL_FRAME);
    assert!(!sync.in_rollback());
    assert_eq!(sync.current_frame(), 5);
    // the game was handed the confirmed inputs, frame by frame
    let expected: Vec<Vec<Vec<u8>>> = (0..5u8).map(|f| vec![vec![10 + f], vec![9]]).collect();
    assert_eq!(game.advanced, expected);
    // and is where a run that knew them from the start is
    let mut upfront = 0u64;
    for inputs in &expected {
        upfront = step(upfront, inputs);
    }
    assert_eq!(game.state, upfront);
    assert_ne!(game.state, speculative);
    assert_eq!(checksum(game.state), checksum(upfront));
    // the checkpoint was loaded with the length of its buffer
    assert_eq!(game.loads, vec![(12, 12)]);
}

#[test]
fn the_replay_starts_at_the_first_incorrect_frame() {
    let mut game = Game::default();
    let mut sync = two_players(8, 10);
    assert!(sync.save_current_frame(&mut game));
    for frame in 0..6 {
        play(&mut sync, &mut game, frame);
    }
    // frames 0 to 2 come in as guessed, frame 3 does not
    for frame in 0..3 {
        assert!(sync.add_remote_input(1, frame, &vec![0]));
    }
    assert_eq!(sync.first_incorrect_frame(), NULL_FRAME);
    assert_eq!(sync.rollback(&mut game), Ok(0));
    assert!(sync.add_remote_input(1, 3, &vec![1]));
    assert_eq!(sync.first_incorrect_frame(), 3);
    game.advanced.clear();
    assert_eq!(sync.rollback(&mut game), Ok(3));
    // frames 4 and 5 are still guessed, now by repeating the new input
    assert_eq!(
        game.advanced,
        vec![vec![vec![3], vec![1]], vec![vec![4], vec![1]], vec![vec![5], vec![1]]]
    );
    // which is what comes in next: nothing is left to correct
    assert!(sync.add_remote_input(1, 4, &vec![1]));
    assert!(sync.add_remote_input(1, 5, &vec![1]));
    assert_eq!(sync.first_incorrect_frame(), NULL_FRAME);
}

#[test]
fn replaying_twice_gives_the_same_state() {
    let mut game = Game::default();
    let mut sync = two_players(8, 10);
    assert!(sync.save_current_frame(&mut game));
    for frame in 0..6 {
        play(&mut sync, &mut game, 3 * frame);
    }
    let before = game.state;
    assert_eq!(sync.check_determinism(&mut game, 4), Ok(4));
    assert_eq!(game.state, before);
    assert_eq!(sync.check_determinism(&mut game, 6), Ok(6));
    assert_eq!(game.state, before);
    assert_eq!(sync.check_determinism(&mut game, 0), Ok(0));
    assert_eq!(sync.check_determinism(&mut game, 7), Ok(0));
    assert_eq!(sync.current_frame(), 6);
    assert!(!sync.in_rollback());
}

#[test]
fn a_game_that_is_not_deterministic_is_caught() {
    let mut game = Game::default();
    let mut sync = two_players(8, 10);
    assert!(sync.save_current_frame(&mut game));
    for frame in 0..4 {
        play(&mut sync, &mut game, frame);
    }
    game.noise = 1;
    assert_eq!(sync.check_determinism(&mut game, 2), Err(GGPOError::GeneralFailure));
    assert!(sync.in_rollback());
    assert_eq!(sync.add_local_input(0, &vec![1]), Err(GGPOError::InRollback));
    assert_eq!(sync.rollback(&mut game), Err(GGPOError::InRollback));
    assert_eq!(sync.check_determinism(&mut game, 2), Err(GGPOError::InRollback));
}

#[test]
fn a_replay_without_a_checkpoint_fails() {
    let mut game = Game::default();
    let mut sync = two_players(8, 2);
    assert!(sync.save_current_frame(&mut game));
    for frame in 0..4 {
        play(&mut sync, &mut game, frame);
    }
    // only the checkpoints of frames 3 and 4 are kept
    assert!(sync.add_remote_input(1, 0, &vec![1]));
    assert_eq!(sync.first_incorrect_frame(), 0);
    // a replay is due: nothing else is done before it
    assert_eq!(sync.add_local_input(0, &vec![1]), Err(GGPOError::InRollback));
    assert_eq!(sync.check_determinism(&mut game, 1), Err(GGPOError::InRollback));
    assert_eq!(sync.rollback(&mut game), Err(GGPOError::GeneralFailure));
    assert!(sync.in_rollback());
    assert_eq!(sync.add_local_input(0, &vec![1]), Err(GGPOError::InRollback));
}

#[test]
fn a_game_that_fails_to_load_or_advance_ends_the_replay() {
    for fail_load in [true, false] {
        let mut game = Game::default();
        let mut sync = two_players(8, 10);
        assert!(sync.save_current_frame(&mut game));
        for frame in 0..3 {
            play(&mut sync, &mut game, frame);
        }
        assert!(sync.add_remote_input(1, 0, &vec![1]));
        game.fail_load = fail_load;
        game.fail_advance = !fail_load;
        assert_eq!(sync.rollback(&mut game), Err(GGPOError::GeneralFailure));
        assert!(sync.in_rollback());
    }
}

#[test]
fn the_confirmed_watermarks_never_go_down() {
    let mut game = Game::default();
    let mut sync = two_players(8, 4);
    assert!(sync.save_current_frame(&mut game));
    let mut last = [sync.last_confirmed_frame(0), sync.last_confirmed_frame(1)];
    for round in 0..30 {
        if sync.add_local_input(0, &vec![round as u8]).is_ok() {
            let (inputs, flags) = sync.synchronize_input();
            game.advance_frame(&inputs, flags);
            let _ = sync.increment_frame(&mut game);
        }
        if round % 3 != 0 {
            let next = sync.last_confirmed_frame(1) + 1;
            sync.add_remote_input(1, next, &vec![(round % 2) as u8]);
        }
        let _ = sync.rollback(&mut game);
        for p in 0..2 {
            assert!(sync.last_confirmed_frame(p) >= last[p]);
            last[p] = sync.last_confirmed_frame(p);
        }
    }
    assert!(last[1] > 10);
}

#[test]
fn checksums_are_compared_where_both_are_there() {
    let list = vec![
        SavedState { frame: 1, buffer: Bytes::new(), checksum: Some(10) },
        SavedState { frame: 2, buffer: Bytes::new(), checksum: None },
        SavedState { frame: 3, buffer: Bytes::new(), checksum: Some(30) },
    ];
    assert!(!checksum_contradicts(&list, 1, Some(10)));
    assert!(checksum_contradicts(&list, 1, Some(11)));
    assert!(!checksum_contradicts(&list, 1, None));
    assert!(!checksum_contradicts(&list, 2, Some(5)));
    assert!(checksum_contradicts(&list, 3, Some(31)));
    assert!(!checksum_contradicts(&list, 4, Some(31)));
    assert!(!checksum_contradicts(&vec![], 1, Some(1)));
}

#[test]
fn store_and_rewind_keep_the_list_in_order() {
    let mut sync = two_players(8, 3);
    assert!(sync.advance_frame());
    assert!(sync.advance_frame());
    assert!(sync.advance_frame());
    let state = |frame: i32| SavedState { frame, buffer: Bytes::from(vec![frame as u8]), checksum: None };
    assert_eq!(sync.store_checkpoint(state(0)).len(), 0);
    assert_eq!(sync.store_checkpoint(state(1)).len(), 0);
    assert_eq!(sync.store_checkpoint(state(2)).len(), 0);
    // a fourth checkpoint pushes the oldest out
    let dropped = sync.store_checkpoint(state(3));
    assert_eq!(dropped.len(), 1);
    assert_eq!(dropped[0].frame, 0);
    // storing frame 2 again drops frames 2 and 3
    let dropped = sync.store_checkpoint(state(2));
    assert_eq!(dropped.iter().map(|s| s.frame).collect::<Vec<_>>(), vec![2, 3]);
    assert_eq!(sync.num_checkpoints(), 2);
    assert_eq!(sync.find_checkpoint(2), Some(1));
    let dropped = sync.rewind(0);
    assert_eq!(dropped.iter().map(|s| s.frame).collect::<Vec<_>>(), vec![2]);
    assert_eq!(sync.current_frame(), 1);
    assert!(sync.in_rollback());
    sync.finish_rollback();
    assert!(!sync.in_rollback());
}
