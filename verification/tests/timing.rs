use scene_chunks::support::{next_frame, Action, Pace, FRAME_NANOS};

#[test]
fn stop_ends_the_loop() {
    assert_eq!(None, next_frame(Action::Stop, 0, 0));
    assert_eq!(None, next_frame(Action::Stop, 5, 1_000_000_000));
}

#[test]
fn a_short_pass_sleeps_for_the_rest_of_the_frame() {
    assert_eq!(
        Some(Pace { accumulator: 1_000_000, sleep: 15_666_667 }),
        next_frame(Action::Continue, 0, 1_000_000)
    );
    assert_eq!(
        Some(Pace { accumulator: 0, sleep: 16_666_667 }),
        next_frame(Action::Continue, 0, 0)
    );
}

#[test]
fn whole_frames_are_dropped_from_the_time_carried_over() {
    assert_eq!(
        Some(Pace { accumulator: 3_333_333, sleep: 13_333_334 }),
        next_frame(Action::Continue, 0, 20_000_000)
    );
    assert_eq!(
        Some(Pace { accumulator: 0, sleep: 16_666_667 }),
        next_frame(Action::Continue, 6_666_667, 10_000_000)
    );
    assert_eq!(
        Some(Pace { accumulator: 1, sleep: 16_666_666 }),
        next_frame(Action::Continue, 2, 3 * FRAME_NANOS - 1)
    );
}

#[test]
fn the_longest_times_do_not_overflow() {
    let sum = u64::MAX as u128 + u64::MAX as u128;
    let left = (sum % FRAME_NANOS as u128) as u64;
    assert_eq!(
        Some(Pace { accumulator: left, sleep: FRAME_NANOS - left }),
        next_frame(Action::Continue, u64::MAX, u64::MAX)
    );
}
