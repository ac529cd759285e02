use microprofile::{
    diagnostics, dump_file, enter_at, flip_at, frames, get_token, init_with, is_alive, leave_at,
    on_thread_create, on_thread_exit, report_write_failed, set_enable_all_groups, shutdown_at,
    start_auto_flip, stop_auto_flip, auto_flip_period, CallSite, Config, Engine,
    MicroProfileDroppable, ProfileError, Seconds, NO_TOKEN,
};

fn engine_with(buffer_capacity: usize, history_capacity: usize) -> Engine {
    init_with(Config { ticks_per_second: 1000, buffer_capacity, history_capacity }, 0)
}

#[test]
fn token_is_the_same_on_every_request() {
    let mut engine = engine_with(16, 4);
    let a = get_token(&mut engine, "io".to_string(), "read".to_string(), 1);
    let b = get_token(&mut engine, "io".to_string(), "read".to_string(), 2);
    let c = get_token(&mut engine, "io".to_string(), "read".to_string(), 1);
    assert_ne!(a, NO_TOKEN);
    assert_eq!(a, b);
    assert_eq!(a, c);
}

#[test]
fn distinct_pairs_get_distinct_tokens() {
    let mut engine = engine_with(16, 4);
    let a = get_token(&mut engine, "io".to_string(), "read".to_string(), 0);
    let b = get_token(&mut engine, "io".to_string(), "write".to_string(), 0);
    let c = get_token(&mut engine, "net".to_string(), "read".to_string(), 0);
    let d = get_token(&mut engine, "ior".to_string(), "ead".to_string(), 0);
    let e = get_token(&mut engine, "".to_string(), "".to_string(), 0);
    let all = [a, b, c, d, e];
    for i in 0..all.len() {
        assert_ne!(all[i], NO_TOKEN);
        for j in 0..i {
            assert_ne!(all[i], all[j]);
        }
    }
    assert_eq!(get_token(&mut engine, "io".to_string(), "write".to_string(), 9), b);
    assert_eq!(get_token(&mut engine, "net".to_string(), "read".to_string(), 9), c);
    assert_eq!(get_token(&mut engine, "io".to_string(), "read".to_string(), 9), a);
}

#[test]
fn tokens_are_handed_out_in_order() {
    let mut engine = engine_with(16, 4);
    assert_eq!(get_token(&mut engine, "a".to_string(), "x".to_string(), 0), 1);
    assert_eq!(get_token(&mut engine, "a".to_string(), "y".to_string(), 0), 2);
    assert_eq!(get_token(&mut engine, "b".to_string(), "x".to_string(), 0), 3);
    assert_eq!(get_token(&mut engine, "a".to_string(), "x".to_string(), 0), 1);
}

#[test]
fn call_site_asks_once() {
    let mut engine = engine_with(16, 4);
    let mut site = CallSite::new("io".to_string(), "read".to_string(), 7);
    let first = site.token(&mut engine);
    let second = site.token(&mut engine);
    assert_ne!(first, NO_TOKEN);
    assert_eq!(first, second);
    assert_eq!(get_token(&mut engine, "io".to_string(), "read".to_string(), 0), first);
    shutdown_at(&mut engine, 10);
    assert_eq!(site.token(&mut engine), first);
    assert_eq!(diagnostics(&engine).usage_errors, 0);
}

#[test]
fn leave_without_enter_is_a_usage_error() {
    let mut engine = engine_with(16, 4);
    leave_at(&mut engine, 1, 10);
    assert_eq!(diagnostics(&engine).usage_errors, 1);
    on_thread_create(&mut engine, 1, "main").unwrap();
    leave_at(&mut engine, 1, 20);
    assert_eq!(diagnostics(&engine).usage_errors, 2);
    let t = get_token(&mut engine, "io".to_string(), "read".to_string(), 0);
    enter_at(&mut engine, 1, t, 30);
    leave_at(&mut engine, 1, 40);
    leave_at(&mut engine, 1, 50);
    assert_eq!(diagnostics(&engine).usage_errors, 3);
    flip_at(&mut engine, 60);
    let part = &frames(&engine)[0].threads[0];
    assert_eq!(part.event_count, 2);
    assert_eq!(part.unmatched_leaves, 0);
    assert_eq!(part.nodes.len(), 1);
}

#[test]
fn unknown_token_is_a_usage_error_and_stays_paired() {
    let mut engine = engine_with(16, 4);
    let t = get_token(&mut engine, "io".to_string(), "read".to_string(), 0);
    enter_at(&mut engine, 1, t, 10);
    enter_at(&mut engine, 1, 999, 20);
    assert_eq!(diagnostics(&engine).usage_errors, 1);
    enter_at(&mut engine, 1, NO_TOKEN, 25);
    assert_eq!(diagnostics(&engine).usage_errors, 2);
    leave_at(&mut engine, 1, 28);
    leave_at(&mut engine, 1, 30);
    leave_at(&mut engine, 1, 50);
    assert_eq!(diagnostics(&engine).usage_errors, 2);
    flip_at(&mut engine, 60);
    let part = &frames(&engine)[0].threads[0];
    assert_eq!(part.nodes.len(), 1);
    assert_eq!(part.nodes[0].inclusive, 40);
    assert_eq!(part.nodes[0].exclusive, 40);
    assert_eq!(part.event_count, 2);
}

#[test]
fn double_registration_is_refused() {
    let mut engine = engine_with(16, 4);
    assert_eq!(on_thread_create(&mut engine, 1, "main"), Ok(()));
    assert_eq!(on_thread_create(&mut engine, 1, "again"), Err(ProfileError::DoubleRegistration));
    assert_eq!(diagnostics(&engine).usage_errors, 1);
    assert_eq!(on_thread_create(&mut engine, 2, "worker"), Ok(()));
    flip_at(&mut engine, 10);
    let frame = &frames(&engine)[0];
    assert_eq!(frame.threads.len(), 2);
    assert_eq!(frame.threads[0].name, "main");
    assert_eq!(frame.threads[1].name, "worker");
}

#[test]
fn first_instrumentation_call_registers_the_thread() {
    let mut engine = engine_with(16, 4);
    let t = get_token(&mut engine, "io".to_string(), "read".to_string(), 0);
    enter_at(&mut engine, 5, t, 10);
    assert_eq!(on_thread_create(&mut engine, 5, "late"), Err(ProfileError::DoubleRegistration));
    leave_at(&mut engine, 5, 20);
    flip_at(&mut engine, 30);
    let frame = &frames(&engine)[0];
    assert_eq!(frame.threads.len(), 1);
    assert_eq!(frame.threads[0].thread, 5);
    assert_eq!(frame.threads[0].name, "");
}

#[test]
fn exit_of_an_unknown_thread_is_refused() {
    let mut engine = engine_with(16, 4);
    assert_eq!(on_thread_exit(&mut engine, 1), Err(ProfileError::UnknownThread));
    assert_eq!(diagnostics(&engine).usage_errors, 1);
    assert_eq!(on_thread_create(&mut engine, 1, "main"), Ok(()));
    assert_eq!(on_thread_exit(&mut engine, 1), Ok(()));
    assert_eq!(on_thread_exit(&mut engine, 1), Err(ProfileError::UnknownThread));
    assert_eq!(diagnostics(&engine).usage_errors, 2);
}

#[test]
fn events_of_an_ended_thread_reach_the_next_frame_only() {
    let mut engine = engine_with(16, 4);
    let t = get_token(&mut engine, "io".to_string(), "read".to_string(), 0);
    on_thread_create(&mut engine, 1, "main").unwrap();
    on_thread_create(&mut engine, 2, "worker").unwrap();
    on_thread_create(&mut engine, 3, "other").unwrap();
    enter_at(&mut engine, 2, t, 10);
    leave_at(&mut engine, 2, 30);
    on_thread_exit(&mut engine, 2).unwrap();
    flip_at(&mut engine, 40);
    flip_at(&mut engine, 50);
    let history = frames(&engine);
    assert_eq!(history[0].threads.len(), 3);
    assert_eq!(history[0].threads[1].name, "worker");
    assert_eq!(history[0].threads[1].nodes.len(), 1);
    assert_eq!(history[0].threads[1].nodes[0].inclusive, 20);
    assert_eq!(history[1].threads.len(), 2);
    assert_eq!(history[1].threads[0].name, "main");
    assert_eq!(history[1].threads[1].name, "other");
}

#[test]
fn ended_thread_is_registered_no_longer() {
    let mut engine = engine_with(16, 4);
    let t = get_token(&mut engine, "g".to_string(), "s".to_string(), 0);
    on_thread_create(&mut engine, 1, "first").unwrap();
    enter_at(&mut engine, 1, t, 5);
    on_thread_exit(&mut engine, 1).unwrap();
    leave_at(&mut engine, 1, 8);
    assert_eq!(diagnostics(&engine).usage_errors, 1);
    assert_eq!(on_thread_exit(&mut engine, 1), Err(ProfileError::UnknownThread));
    flip_at(&mut engine, 10);
    let part = &frames(&engine)[0].threads[0];
    assert_eq!(part.event_count, 1);
    assert!(part.nodes[0].spanning);
    assert_eq!(part.nodes[0].inclusive, 5);
}

#[test]
fn ended_thread_can_register_again() {
    let mut engine = engine_with(16, 4);
    on_thread_create(&mut engine, 1, "first").unwrap();
    on_thread_exit(&mut engine, 1).unwrap();
    assert_eq!(on_thread_create(&mut engine, 1, "second"), Ok(()));
    flip_at(&mut engine, 10);
    flip_at(&mut engine, 20);
    let history = frames(&engine);
    assert_eq!(history[0].threads.len(), 2);
    assert_eq!(history[1].threads.len(), 1);
    assert_eq!(history[1].threads[0].name, "second");
}

#[test]
fn full_buffer_drops_the_oldest_and_marks_the_frame() {
    let mut engine = engine_with(4, 4);
    let a = get_token(&mut engine, "g".to_string(), "a".to_string(), 0);
    let b = get_token(&mut engine, "g".to_string(), "b".to_string(), 0);
    enter_at(&mut engine, 1, a, 10);
    enter_at(&mut engine, 1, b, 20);
    leave_at(&mut engine, 1, 30);
    enter_at(&mut engine, 1, b, 40);
    leave_at(&mut engine, 1, 50);
    leave_at(&mut engine, 1, 60);
    flip_at(&mut engine, 70);
    let frame = &frames(&engine)[0];
    assert!(frame.is_clipped());
    let part = &frame.threads[0];
    assert!(part.is_clipped());
    assert_eq!(part.dropped_events, 2);
    assert_eq!(part.event_count, 4);
    assert_eq!(part.unmatched_leaves, 2);
    assert_eq!(part.nodes.len(), 1);
    assert_eq!(part.nodes[0].token, b);
    assert_eq!(part.nodes[0].depth, 0);
    assert_eq!(part.nodes[0].inclusive, 10);
    assert_eq!(diagnostics(&engine).usage_errors, 0);
    assert_eq!(diagnostics(&engine).resource_errors, 2);
    flip_at(&mut engine, 80);
    assert!(!frames(&engine)[1].is_clipped());
    assert_eq!(frames(&engine)[1].threads[0].dropped_events, 0);
}

#[test]
fn buffer_without_room_drops_everything() {
    let mut engine = engine_with(0, 4);
    let a = get_token(&mut engine, "g".to_string(), "a".to_string(), 0);
    enter_at(&mut engine, 1, a, 10);
    leave_at(&mut engine, 1, 20);
    flip_at(&mut engine, 30);
    let part = &frames(&engine)[0].threads[0];
    assert_eq!(part.dropped_events, 2);
    assert_eq!(part.event_count, 0);
    assert_eq!(part.nodes.len(), 0);
    assert_eq!(diagnostics(&engine).usage_errors, 0);
    assert_eq!(diagnostics(&engine).resource_errors, 2);
}

#[test]
fn scope_across_a_flip_is_closed_at_the_boundary() {
    let mut engine = engine_with(16, 4);
    let a = get_token(&mut engine, "g".to_string(), "a".to_string(), 0);
    enter_at(&mut engine, 1, a, 10);
    flip_at(&mut engine, 100);
    leave_at(&mut engine, 1, 130);
    flip_at(&mut engine, 200);
    let history = frames(&engine);
    let first = &history[0].threads[0];
    assert_eq!(first.nodes.len(), 1);
    assert!(first.nodes[0].spanning);
    assert_eq!(first.nodes[0].inclusive, 90);
    assert_eq!(first.unmatched_leaves, 0);
    let second = &history[1].threads[0];
    assert_eq!(second.nodes.len(), 0);
    assert_eq!(second.event_count, 1);
    assert_eq!(second.unmatched_leaves, 1);
    assert_eq!(diagnostics(&engine).usage_errors, 0);
}

#[test]
fn history_keeps_the_latest_frames() {
    let mut engine = engine_with(16, 2);
    flip_at(&mut engine, 10);
    flip_at(&mut engine, 20);
    flip_at(&mut engine, 30);
    flip_at(&mut engine, 45);
    let history = frames(&engine);
    assert_eq!(history.len(), 2);
    assert_eq!(history[0].index, 2);
    assert_eq!(history[1].index, 3);
    assert_eq!(history[1].start, 30);
    assert_eq!(history[1].duration, 15);
}

#[test]
fn history_without_room_keeps_one_frame() {
    let mut engine = engine_with(16, 0);
    flip_at(&mut engine, 10);
    flip_at(&mut engine, 20);
    let history = frames(&engine);
    assert_eq!(history.len(), 1);
    assert_eq!(history[0].index, 1);
}

#[test]
fn threads_keep_apart() {
    let mut engine = engine_with(16, 4);
    let a = get_token(&mut engine, "g".to_string(), "a".to_string(), 0);
    let b = get_token(&mut engine, "g".to_string(), "b".to_string(), 0);
    enter_at(&mut engine, 1, a, 10);
    enter_at(&mut engine, 2, b, 20);
    leave_at(&mut engine, 1, 30);
    leave_at(&mut engine, 2, 60);
    flip_at(&mut engine, 100);
    let frame = &frames(&engine)[0];
    assert_eq!(frame.threads.len(), 2);
    assert_eq!(frame.threads[0].thread, 1);
    assert_eq!(frame.threads[0].nodes[0].token, a);
    assert_eq!(frame.threads[0].nodes[0].inclusive, 20);
    assert_eq!(frame.threads[0].nodes[0].depth, 0);
    assert_eq!(frame.threads[1].thread, 2);
    assert_eq!(frame.threads[1].nodes[0].token, b);
    assert_eq!(frame.threads[1].nodes[0].inclusive, 40);
    assert_eq!(frame.threads[1].nodes[0].depth, 0);
}

#[test]
fn guard_enters_and_leaves() {
    let mut engine = engine_with(16, 4);
    let a = get_token(&mut engine, "g".to_string(), "a".to_string(), 0);
    let scope = MicroProfileDroppable::open_at(&mut engine, 3, a, 5);
    assert_eq!(scope.thread, 3);
    scope.close_at(&mut engine, 25);
    flip_at(&mut engine, 30);
    let part = &frames(&engine)[0].threads[0];
    assert_eq!(part.thread, 3);
    assert_eq!(part.nodes[0].inclusive, 20);
    assert_eq!(diagnostics(&engine).usage_errors, 0);
}

#[test]
fn everything_after_shutdown_is_a_usage_error() {
    let mut engine = engine_with(16, 4);
    let a = get_token(&mut engine, "g".to_string(), "a".to_string(), 0);
    on_thread_create(&mut engine, 1, "main").unwrap();
    flip_at(&mut engine, 10);
    let files = shutdown_at(&mut engine, 20);
    assert!(files.is_empty());
    assert!(!is_alive(&engine));
    assert_eq!(frames(&engine).len(), 0);
    assert_eq!(diagnostics(&engine).usage_errors, 0);
    assert_eq!(get_token(&mut engine, "g".to_string(), "a".to_string(), 0), NO_TOKEN);
    enter_at(&mut engine, 1, a, 30);
    leave_at(&mut engine, 1, 40);
    assert!(flip_at(&mut engine, 50).is_empty());
    set_enable_all_groups(&mut engine, true);
    start_auto_flip(&mut engine, 20);
    assert_eq!(on_thread_create(&mut engine, 2, "late"), Err(ProfileError::AfterShutdown));
    assert_eq!(on_thread_exit(&mut engine, 1), Err(ProfileError::AfterShutdown));
    let r = dump_file(
        &mut engine,
        "a.html".to_string(),
        "".to_string(),
        Seconds { whole: 0, nanos: 0 },
        Seconds { whole: 0, nanos: 0 },
    );
    assert_eq!(r, Err(ProfileError::AfterShutdown));
    assert!(shutdown_at(&mut engine, 60).is_empty());
    assert_eq!(diagnostics(&engine).usage_errors, 10);
    assert_eq!(frames(&engine).len(), 0);
    assert_eq!(auto_flip_period(&engine), None);
    stop_auto_flip(&mut engine);
    assert_eq!(diagnostics(&engine).usage_errors, 10);
}

#[test]
fn shutdown_makes_the_flip_that_was_still_to_come() {
    let mut engine = engine_with(16, 4);
    let a = get_token(&mut engine, "g".to_string(), "a".to_string(), 0);
    start_auto_flip(&mut engine, 20);
    dump_file(
        &mut engine,
        "spike.html".to_string(),
        "spike.csv".to_string(),
        Seconds { whole: 0, nanos: 10_000_000 },
        Seconds { whole: 0, nanos: 0 },
    )
    .unwrap();
    enter_at(&mut engine, 1, a, 100);
    leave_at(&mut engine, 1, 200);
    let files = shutdown_at(&mut engine, 300);
    assert_eq!(files.len(), 2);
    assert_eq!(files[0].path, "spike.html");
    assert_eq!(files[1].path, "spike.csv");
    let table = String::from_utf8(files[1].bytes.clone()).unwrap();
    assert!(table.ends_with("0,\"\",0,\"g\",\"a\",1,100,100,100,0\n"));
    assert!(!is_alive(&engine));
    assert_eq!(auto_flip_period(&engine), None);
}

#[test]
fn write_failure_is_counted() {
    let mut engine = engine_with(16, 4);
    report_write_failed(&mut engine);
    report_write_failed(&mut engine);
    let d = diagnostics(&engine);
    assert_eq!(d.resource_errors, 2);
    assert_eq!(d.usage_errors, 0);
    assert_eq!(d.calibration_errors, 0);
}
