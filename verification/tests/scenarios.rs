use microprofile::{
    auto_flip, auto_flip_at, auto_flip_period, diagnostics, dump_file_immediately,
    dump_file_immediately_at, enter, enter_at, flip, flip_at, frames, get_token, init, init_with,
    is_alive, leave, leave_at, on_thread_create, set_enable_all_groups, shutdown, start_auto_flip,
    stop_auto_flip, Config, Engine, MicroProfileDroppable,
};

fn small_engine() -> Engine {
    init_with(
        Config { ticks_per_second: 1_000_000, buffer_capacity: 1024, history_capacity: 8 },
        0,
    )
}

fn run_test(engine: &mut Engine, thread: u64) {
    let fisk = get_token(engine, "foo".to_string(), "fisk".to_string(), 0);
    let outer = MicroProfileDroppable::open(engine, thread, fisk);
    for _ in 0..10 {
        let bar = get_token(engine, "foo".to_string(), "bar".to_string(), 0xff00ff00);
        let in_bar = MicroProfileDroppable::open(engine, thread, bar);
        let fest = get_token(engine, "foo".to_string(), "fest".to_string(), 0);
        let in_fest = MicroProfileDroppable::open(engine, thread, fest);
        for _ in 0..10 {
            let baz = get_token(engine, "foo".to_string(), "baz".to_string(), 0);
            let in_baz = MicroProfileDroppable::open(engine, thread, baz);
            in_baz.close(engine);
        }
        in_fest.close(engine);
        in_bar.close(engine);
    }
    outer.close(engine);
}

#[test]
fn basic() {
    let mut engine = init();
    set_enable_all_groups(&mut engine, true);
    start_auto_flip(&mut engine, 20);
    run_test(&mut engine, 1);
    let first = dump_file_immediately(&mut engine, "foo.html", "");
    assert_eq!(first.len(), 1);
    assert_eq!(first[0].path, "foo.html");
    assert!(!first[0].bytes.is_empty());
    let second = dump_file_immediately(&mut engine, "", "foo.csv");
    assert_eq!(second.len(), 1);
    assert_eq!(second[0].path, "foo.csv");
    assert!(!second[0].bytes.is_empty());
    stop_auto_flip(&mut engine);
    shutdown(&mut engine);
    assert!(!is_alive(&engine));
    assert_eq!(diagnostics(&engine).usage_errors, 0);
}

#[test]
fn basic_builds_the_nested_tree() {
    let mut engine = init();
    run_test(&mut engine, 1);
    flip(&mut engine);
    let history = frames(&engine);
    assert_eq!(history.len(), 1);
    let nodes = &history[0].threads[0].nodes;
    assert_eq!(nodes.len(), 4);
    assert_eq!(nodes[0].call_count, 1);
    assert_eq!(nodes[1].call_count, 10);
    assert_eq!(nodes[2].call_count, 10);
    assert_eq!(nodes[3].call_count, 100);
    for (i, n) in nodes.iter().enumerate() {
        assert_eq!(n.depth, i);
        assert!(n.exclusive <= n.inclusive);
        assert!(n.max_single <= n.inclusive);
    }
    assert_eq!(nodes[0].exclusive, nodes[0].inclusive - nodes[1].inclusive);
    assert_eq!(nodes[2].exclusive, nodes[2].inclusive - nodes[3].inclusive);
}

#[test]
fn one_scope_gives_one_node() {
    let mut engine = small_engine();
    let t = get_token(&mut engine, "io".to_string(), "read".to_string(), 0);
    enter_at(&mut engine, 1, t, 100);
    leave_at(&mut engine, 1, 150);
    let files = flip_at(&mut engine, 200);
    assert!(files.is_empty());
    let history = frames(&engine);
    assert_eq!(history.len(), 1);
    let frame = &history[0];
    assert_eq!(frame.index, 0);
    assert_eq!(frame.start, 0);
    assert_eq!(frame.duration, 200);
    assert_eq!(frame.threads.len(), 1);
    let part = &frame.threads[0];
    assert_eq!(part.thread, 1);
    assert_eq!(part.event_count, 2);
    assert_eq!(part.unmatched_leaves, 0);
    assert_eq!(part.dropped_events, 0);
    assert_eq!(part.nodes.len(), 1);
    let node = part.nodes[0];
    assert_eq!(node.token, t);
    assert_eq!(node.inclusive, 50);
    assert_eq!(node.call_count, 1);
    assert_eq!(node.exclusive, 50);
    assert_eq!(node.max_single, 50);
    assert_eq!(node.depth, 0);
    assert_eq!(node.parent, None);
    assert!(!node.spanning);
}

#[test]
fn immediate_dump_writes_the_page_and_skips_the_empty_path() {
    let mut engine = small_engine();
    let t = get_token(&mut engine, "io".to_string(), "read".to_string(), 0);
    enter_at(&mut engine, 1, t, 100);
    leave_at(&mut engine, 1, 150);
    let files = dump_file_immediately_at(&mut engine, "out.html", "", 200);
    assert_eq!(files.len(), 1);
    assert_eq!(files[0].path, "out.html");
    assert!(!files[0].bytes.is_empty());
    assert_eq!(frames(&engine).len(), 1);
}

#[test]
fn immediate_dump_with_both_paths_empty_writes_nothing() {
    let mut engine = small_engine();
    let files = dump_file_immediately_at(&mut engine, "", "", 10);
    assert!(files.is_empty());
    assert_eq!(frames(&engine).len(), 1);
}

#[test]
fn flip_without_events_gives_an_empty_frame() {
    let mut engine = small_engine();
    on_thread_create(&mut engine, 1, "main").unwrap();
    flip_at(&mut engine, 10);
    flip_at(&mut engine, 20);
    let history = frames(&engine);
    assert_eq!(history.len(), 2);
    for frame in history.iter() {
        assert!(frame.has_no_nodes());
        assert!(!frame.is_clipped());
        assert_eq!(frame.threads.len(), 1);
        assert_eq!(frame.threads[0].nodes.len(), 0);
        assert_eq!(frame.threads[0].unmatched_leaves, 0);
    }
    assert_eq!(history[1].index, 1);
    assert_eq!(history[1].start, 10);
    assert_eq!(history[1].duration, 10);
}

#[test]
fn second_flip_sees_nothing_of_the_first_frame() {
    let mut engine = small_engine();
    let t = get_token(&mut engine, "io".to_string(), "read".to_string(), 0);
    enter_at(&mut engine, 1, t, 5);
    leave_at(&mut engine, 1, 6);
    flip_at(&mut engine, 10);
    flip_at(&mut engine, 20);
    let history = frames(&engine);
    assert!(!history[0].has_no_nodes());
    assert!(history[1].has_no_nodes());
}

#[test]
fn disabled_group_records_nothing() {
    let mut engine = small_engine();
    let t = get_token(&mut engine, "io".to_string(), "read".to_string(), 0);
    set_enable_all_groups(&mut engine, false);
    enter_at(&mut engine, 1, t, 100);
    leave_at(&mut engine, 1, 150);
    flip_at(&mut engine, 200);
    let history = frames(&engine);
    assert!(history[0].has_no_nodes());
    assert_eq!(history[0].threads[0].event_count, 0);
    assert_eq!(diagnostics(&engine).usage_errors, 0);
}

#[test]
fn group_made_while_disabled_starts_disabled() {
    let mut engine = small_engine();
    set_enable_all_groups(&mut engine, false);
    let t = get_token(&mut engine, "late".to_string(), "scope".to_string(), 0);
    enter_at(&mut engine, 1, t, 1);
    leave_at(&mut engine, 1, 2);
    set_enable_all_groups(&mut engine, true);
    enter_at(&mut engine, 1, t, 3);
    leave_at(&mut engine, 1, 5);
    flip_at(&mut engine, 10);
    let nodes = &frames(&engine)[0].threads[0].nodes;
    assert_eq!(nodes.len(), 1);
    assert_eq!(nodes[0].call_count, 1);
    assert_eq!(nodes[0].inclusive, 2);
}

#[test]
fn leave_while_off_is_not_logged() {
    let mut engine = small_engine();
    let t = get_token(&mut engine, "io".to_string(), "read".to_string(), 0);
    enter_at(&mut engine, 1, t, 10);
    set_enable_all_groups(&mut engine, false);
    leave_at(&mut engine, 1, 30);
    set_enable_all_groups(&mut engine, true);
    leave_at(&mut engine, 1, 35);
    assert_eq!(diagnostics(&engine).usage_errors, 1);
    flip_at(&mut engine, 40);
    let part = &frames(&engine)[0].threads[0];
    assert_eq!(part.event_count, 1);
    assert_eq!(part.nodes.len(), 1);
    assert_eq!(part.nodes[0].inclusive, 30);
    assert!(part.nodes[0].spanning);
    assert_eq!(part.unmatched_leaves, 0);
}

#[test]
fn leave_while_off_counts_nothing_whatever_the_stack() {
    let mut engine = small_engine();
    set_enable_all_groups(&mut engine, false);
    leave_at(&mut engine, 1, 5);
    on_thread_create(&mut engine, 1, "main").unwrap();
    leave_at(&mut engine, 1, 6);
    leave_at(&mut engine, 2, 7);
    let d = diagnostics(&engine);
    assert_eq!((d.usage_errors, d.resource_errors, d.calibration_errors), (0, 0, 0));
    flip_at(&mut engine, 10);
    let frame = &frames(&engine)[0];
    assert_eq!(frame.threads.len(), 1);
    assert_eq!(frame.threads[0].event_count, 0);
    assert_eq!(frame.duration, 10);
}

#[test]
fn enter_while_off_counts_nothing_whatever_the_token() {
    let mut engine = small_engine();
    set_enable_all_groups(&mut engine, false);
    enter_at(&mut engine, 1, 999, 5);
    enter_at(&mut engine, 1, 0, 6);
    leave_at(&mut engine, 1, 7);
    leave_at(&mut engine, 1, 8);
    leave_at(&mut engine, 1, 9);
    let d = diagnostics(&engine);
    assert_eq!((d.usage_errors, d.resource_errors, d.calibration_errors), (0, 0, 0));
    set_enable_all_groups(&mut engine, true);
    leave_at(&mut engine, 1, 10);
    assert_eq!(diagnostics(&engine).usage_errors, 1);
    flip_at(&mut engine, 20);
    assert!(frames(&engine)[0].has_no_nodes());
    assert_eq!(frames(&engine)[0].threads[0].event_count, 0);
}

#[test]
fn scope_entered_while_off_is_left_in_silence_when_on_again() {
    let mut engine = small_engine();
    let t = get_token(&mut engine, "io".to_string(), "read".to_string(), 0);
    enter_at(&mut engine, 1, t, 10);
    set_enable_all_groups(&mut engine, false);
    enter_at(&mut engine, 1, t, 20);
    set_enable_all_groups(&mut engine, true);
    leave_at(&mut engine, 1, 30);
    leave_at(&mut engine, 1, 50);
    flip_at(&mut engine, 60);
    let part = &frames(&engine)[0].threads[0];
    assert_eq!(part.event_count, 2);
    assert_eq!(part.nodes.len(), 1);
    assert_eq!(part.nodes[0].call_count, 1);
    assert_eq!(part.nodes[0].inclusive, 40);
    assert!(!part.nodes[0].spanning);
    assert_eq!(diagnostics(&engine).usage_errors, 0);
}

#[test]
fn enter_and_leave_do_nothing_after_shutdown_while_off() {
    let mut engine = small_engine();
    let t = get_token(&mut engine, "io".to_string(), "read".to_string(), 0);
    set_enable_all_groups(&mut engine, false);
    shutdown(&mut engine);
    enter_at(&mut engine, 1, t, 10);
    leave_at(&mut engine, 1, 20);
    assert_eq!(diagnostics(&engine).usage_errors, 0);
    assert!(flip_at(&mut engine, 30).is_empty());
    assert_eq!(diagnostics(&engine).usage_errors, 1);
    assert_eq!(frames(&engine).len(), 0);
}

#[test]
fn timer_does_nothing_after_stop() {
    let mut engine = small_engine();
    assert_eq!(auto_flip_period(&engine), None);
    assert!(auto_flip_at(&mut engine, 5).is_empty());
    assert_eq!(frames(&engine).len(), 0);
    start_auto_flip(&mut engine, 20);
    assert_eq!(auto_flip_period(&engine), Some(20));
    start_auto_flip(&mut engine, 50);
    assert_eq!(auto_flip_period(&engine), Some(50));
    auto_flip_at(&mut engine, 10);
    assert_eq!(frames(&engine).len(), 1);
    stop_auto_flip(&mut engine);
    assert_eq!(auto_flip_period(&engine), None);
    auto_flip_at(&mut engine, 20);
    auto_flip(&mut engine);
    assert_eq!(frames(&engine).len(), 1);
    stop_auto_flip(&mut engine);
    flip_at(&mut engine, 30);
    assert_eq!(frames(&engine).len(), 2);
    assert_eq!(diagnostics(&engine).usage_errors, 0);
}

#[test]
fn scope_runs_on_the_engine_clock() {
    let mut engine = init();
    let t = get_token(&mut engine, "io".to_string(), "read".to_string(), 0);
    enter(&mut engine, 9, t);
    leave(&mut engine, 9);
    flip(&mut engine);
    let part = &frames(&engine)[0].threads[0];
    assert_eq!(part.thread, 9);
    assert_eq!(part.nodes.len(), 1);
    assert_eq!(part.nodes[0].call_count, 1);
    assert!(part.nodes[0].inclusive <= frames(&engine)[0].duration);
}
