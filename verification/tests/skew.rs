use ggpo::time_sync::{
    TimeSynchronizer, FRAME_WINDOW_SIZE, MAX_RECOMMENDATION, RECOMMENDATION_INTERVAL,
    SUSTAINED_TICKS,
};

#[test]
fn a_level_link_recommends_nothing() {
    let mut t = TimeSynchronizer::new();
    for frame in 0..100 {
        t.report(0, 0);
        assert_eq!(t.end_tick(frame), None);
    }
    assert_eq!(t.frames_ahead(), 0);
}

#[test]
fn frames_ahead_is_half_the_mean_difference() {
    let mut t = TimeSynchronizer::new();
    t.report(-4, 4);
    t.end_tick(0);
    assert_eq!(t.frames_ahead(), 4);
    t.report(0, 0);
    t.end_tick(1);
    assert_eq!(t.frames_ahead(), 2);
    t.report(1, 0);
    t.end_tick(2);
    // (8 + 0 - 1) / 6, rounded towards zero
    assert_eq!(t.frames_ahead(), 1);
}

#[test]
fn a_negative_skew_is_rounded_towards_zero() {
    let mut t = TimeSynchronizer::new();
    t.report(3, 0);
    t.end_tick(0);
    assert_eq!(t.frames_ahead(), -1);
    t.report(4, 0);
    t.end_tick(1);
    // -7 / 4
    assert_eq!(t.frames_ahead(), -1);
}

#[test]
fn the_worst_link_of_a_tick_counts() {
    let mut t = TimeSynchronizer::new();
    t.report(0, 2);
    t.report(-5, 5);
    t.report(0, 4);
    t.end_tick(0);
    assert_eq!(t.frames_ahead(), 5);
}

#[test]
fn a_sustained_skew_is_recommended_once_and_bounded() {
    let mut t = TimeSynchronizer::new();
    let mut advice = Vec::new();
    for frame in 0..(SUSTAINED_TICKS as i32 + RECOMMENDATION_INTERVAL + 5) {
        t.report(-20, 20);
        if let Some(n) = t.end_tick(frame) {
            advice.push((frame, n));
        }
    }
    assert_eq!(
        advice,
        vec![
            (SUSTAINED_TICKS as i32 - 1, MAX_RECOMMENDATION),
            (SUSTAINED_TICKS as i32 - 1 + RECOMMENDATION_INTERVAL, MAX_RECOMMENDATION),
        ]
    );
}

#[test]
fn a_small_skew_is_left_alone() {
    let mut t = TimeSynchronizer::new();
    for frame in 0..300 {
        t.report(-2, 2);
        assert_eq!(t.end_tick(frame), None);
    }
    assert_eq!(t.frames_ahead(), 2);
}

#[test]
fn a_skew_that_does_not_last_is_left_alone() {
    let mut t = TimeSynchronizer::new();
    for frame in 0..200 {
        if frame % 8 == 7 {
            // the window forgets slowly, so the break has to be deep
            for _ in 0..FRAME_WINDOW_SIZE {
                t.report(0, 0);
                t.end_tick(frame);
            }
        } else {
            t.report(-6, 6);
        }
        assert_eq!(t.end_tick(frame), None);
    }
}

#[test]
fn being_behind_is_recommended_as_negative() {
    let mut t = TimeSynchronizer::new();
    let mut first = None;
    for frame in 0..20 {
        t.report(4, -4);
        if let Some(n) = t.end_tick(frame) {
            first = Some((frame, n));
            break;
        }
    }
    assert_eq!(first, Some((9, -4)));
}

#[test]
fn the_window_forgets() {
    let mut t = TimeSynchronizer::new();
    t.report(-100, 100);
    t.end_tick(0);
    for frame in 1..=(FRAME_WINDOW_SIZE as i32) {
        t.report(0, 0);
        t.end_tick(frame);
    }
    assert_eq!(t.frames_ahead(), 0);
}
