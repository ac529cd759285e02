use microprofile::clock::{
    seconds_from_ticks, tick_advance, tick_distance, ticks_from_seconds, wrap_nanos, HALF_RANGE,
};
use microprofile::{
    diagnostics, dump_file, enter_at, flip_at, frames, get_token, init, init_with, leave_at, tick,
    tick_at, ticks_per_second_cpu, ticks_to_seconds, Config, ProfileError, Seconds, TickSource,
};

#[test]
fn distance_is_plain_difference_without_wrap() {
    assert_eq!(tick_distance(100, 150), 50);
    assert_eq!(tick_distance(7, 7), 0);
    assert_eq!(tick_distance(0, u64::MAX), u64::MAX);
}

#[test]
fn distance_is_right_across_a_wrap() {
    assert_eq!(tick_distance(u64::MAX - 10, 40), 51);
    assert_eq!(tick_distance(u64::MAX, 0), 1);
    assert_eq!(tick_distance(1, 0), u64::MAX);
}

#[test]
fn advance_wraps_and_inverts_distance() {
    assert_eq!(tick_advance(100, 50), 150);
    assert_eq!(tick_advance(u64::MAX - 10, 51), 40);
    assert_eq!(tick_advance(u64::MAX, 1), 0);
    assert_eq!(tick_advance(5, u64::MAX), 4);
    assert_eq!(tick_distance(u64::MAX - 3, tick_advance(u64::MAX - 3, 1000)), 1000);
}

#[test]
fn seconds_from_ticks_splits_whole_and_fraction() {
    assert_eq!(
        seconds_from_ticks(1_500_000_000, 1_000_000_000),
        Some(Seconds { whole: 1, nanos: 500_000_000 })
    );
    assert_eq!(seconds_from_ticks(7, 2), Some(Seconds { whole: 3, nanos: 500_000_000 }));
    assert_eq!(seconds_from_ticks(1, 3), Some(Seconds { whole: 0, nanos: 333_333_333 }));
    assert_eq!(seconds_from_ticks(0, 5), Some(Seconds { whole: 0, nanos: 0 }));
    assert_eq!(
        seconds_from_ticks(u64::MAX, u64::MAX),
        Some(Seconds { whole: 1, nanos: 0 })
    );
    assert_eq!(
        seconds_from_ticks(u64::MAX - 1, u64::MAX),
        Some(Seconds { whole: 0, nanos: 999_999_999 })
    );
}

#[test]
fn seconds_from_ticks_fails_without_calibration() {
    assert_eq!(seconds_from_ticks(1_000, 0), None);
}

#[test]
fn ticks_from_seconds_scales_and_saturates() {
    assert_eq!(ticks_from_seconds(Seconds { whole: 2, nanos: 500_000_000 }, 1000), Some(2500));
    assert_eq!(ticks_from_seconds(Seconds { whole: 0, nanos: 1 }, 1000), Some(0));
    assert_eq!(ticks_from_seconds(Seconds { whole: 0, nanos: 0 }, 1000), Some(0));
    assert_eq!(ticks_from_seconds(Seconds { whole: u64::MAX, nanos: 0 }, 2), Some(u64::MAX));
    assert_eq!(
        ticks_from_seconds(Seconds { whole: u64::MAX, nanos: u32::MAX }, u64::MAX),
        Some(u64::MAX)
    );
    assert_eq!(ticks_from_seconds(Seconds { whole: 1, nanos: 0 }, 0), None);
}

#[test]
fn engine_converts_with_its_clock_rate() {
    let engine = init_with(
        Config { ticks_per_second: 1000, buffer_capacity: 16, history_capacity: 2 },
        0,
    );
    assert_eq!(ticks_per_second_cpu(&engine), 1000);
    assert_eq!(ticks_to_seconds(&engine, 1500), Ok(Seconds { whole: 1, nanos: 500_000_000 }));
}

#[test]
fn engine_without_calibration_fails_the_conversion() {
    let mut engine = init_with(
        Config { ticks_per_second: 0, buffer_capacity: 16, history_capacity: 2 },
        0,
    );
    assert_eq!(ticks_per_second_cpu(&engine), 0);
    assert_eq!(ticks_to_seconds(&engine, 1500), Err(ProfileError::Calibration));
    let r = dump_file(
        &mut engine,
        "a.html".to_string(),
        "a.csv".to_string(),
        Seconds { whole: 0, nanos: 1 },
        Seconds { whole: 0, nanos: 0 },
    );
    assert_eq!(r, Err(ProfileError::Calibration));
    assert_eq!(diagnostics(&engine).calibration_errors, 1);
    assert_eq!(diagnostics(&engine).usage_errors, 0);
}

#[test]
fn standard_engine_counts_nanoseconds() {
    let engine = init();
    assert_eq!(ticks_per_second_cpu(&engine), 1_000_000_000);
}

#[test]
fn tick_never_goes_back() {
    let mut engine = init();
    let mut last = tick(&mut engine);
    for _ in 0..1000 {
        let t = tick(&mut engine);
        assert!(tick_distance(last, t) < HALF_RANGE);
        last = t;
    }
}

#[test]
fn tick_at_takes_no_reading_from_the_past() {
    let mut engine = init_with(
        Config { ticks_per_second: 1000, buffer_capacity: 16, history_capacity: 2 },
        1000,
    );
    assert_eq!(tick_at(&mut engine, 1000), 1000);
    assert_eq!(tick_at(&mut engine, 1200), 1200);
    assert_eq!(tick_at(&mut engine, 1100), 1200);
    assert_eq!(tick_at(&mut engine, 900), 1200);
    assert_eq!(tick_at(&mut engine, 1201), 1201);
    flip_at(&mut engine, 1300);
    assert_eq!(tick_at(&mut engine, 1250), 1300);
    assert_eq!(tick_at(&mut engine, 1301), 1301);
}

#[test]
fn tick_source_reads() {
    let mut source = TickSource::start();
    let a = source.read();
    let b = source.read();
    assert!(tick_distance(a, b) < HALF_RANGE);
}

#[test]
fn tick_source_shows_no_tick_from_the_past() {
    let mut source = TickSource::start();
    assert_eq!(source.show(100), 100);
    assert_eq!(source.show(40), 100);
    assert_eq!(source.show(100), 100);
    assert_eq!(source.show(101), 101);
    assert_eq!(source.show(101 + HALF_RANGE), 101);
    assert_eq!(source.show(100 + HALF_RANGE), 100 + HALF_RANGE);
    assert_eq!(source.show(5), 5);
    assert_eq!(source.show(4), 5);
}

#[test]
fn nanoseconds_wrap_into_the_tick_range() {
    assert_eq!(wrap_nanos(0), 0);
    assert_eq!(wrap_nanos(1_500_000_000), 1_500_000_000);
    assert_eq!(wrap_nanos(u64::MAX as u128), u64::MAX);
    assert_eq!(wrap_nanos(u64::MAX as u128 + 1), 0);
    assert_eq!(wrap_nanos(u64::MAX as u128 + 43), 42);
    assert_eq!(wrap_nanos(u128::MAX), u64::MAX);
}

#[test]
fn frame_time_survives_a_wrap_of_the_clock() {
    let start = u64::MAX - 10;
    let mut engine = init_with(
        Config { ticks_per_second: 1000, buffer_capacity: 16, history_capacity: 2 },
        start,
    );
    let t = get_token(&mut engine, "io".to_string(), "read".to_string(), 0);
    enter_at(&mut engine, 1, t, u64::MAX - 5);
    leave_at(&mut engine, 1, 40);
    flip_at(&mut engine, 50);
    let frame = &frames(&engine)[0];
    assert_eq!(frame.start, start);
    assert_eq!(frame.duration, 61);
    assert_eq!(frame.threads[0].nodes[0].inclusive, 46);
    flip_at(&mut engine, 60);
    assert_eq!(frames(&engine)[1].start, 50);
    assert_eq!(frames(&engine)[1].duration, 10);
}

#[test]
fn a_tick_from_the_past_is_not_taken() {
    let mut engine = init_with(
        Config { ticks_per_second: 1000, buffer_capacity: 16, history_capacity: 2 },
        1000,
    );
    let t = get_token(&mut engine, "io".to_string(), "read".to_string(), 0);
    enter_at(&mut engine, 1, t, 1100);
    leave_at(&mut engine, 1, 1050);
    enter_at(&mut engine, 1, t, 900);
    leave_at(&mut engine, 1, 1200);
    flip_at(&mut engine, 1150);
    let frame = &frames(&engine)[0];
    assert_eq!(frame.duration, 200);
    let node = frame.threads[0].nodes[0];
    assert_eq!(node.call_count, 2);
    assert_eq!(node.inclusive, 100);
    assert_eq!(node.max_single, 100);
}
