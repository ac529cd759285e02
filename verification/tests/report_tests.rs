use microprofile::registry::Registry;
use microprofile::report::{write_csv, write_html};
use microprofile::{
    dump_file, dump_file_immediately_at, enter_at, flip_at, frames, get_token, init_with, leave_at,
    on_thread_create, Config, Engine, Frame, Node, Seconds, ThreadFrame,
};

fn engine() -> Engine {
    init_with(Config { ticks_per_second: 1000, buffer_capacity: 64, history_capacity: 4 }, 0)
}

fn text(bytes: &[u8]) -> String {
    String::from_utf8(bytes.to_vec()).unwrap()
}

const HEADING: &str = "frame,thread,depth,group,scope,calls,inclusive,exclusive,longest,spanning\n";

#[test]
fn table_has_one_line_for_each_node() {
    let mut e = engine();
    on_thread_create(&mut e, 1, "main").unwrap();
    let read = get_token(&mut e, "io".to_string(), "read".to_string(), 0);
    let parse = get_token(&mut e, "cpu".to_string(), "parse".to_string(), 0);
    enter_at(&mut e, 1, read, 100);
    enter_at(&mut e, 1, parse, 110);
    leave_at(&mut e, 1, 130);
    leave_at(&mut e, 1, 150);
    let files = dump_file_immediately_at(&mut e, "", "out.csv", 200);
    assert_eq!(files.len(), 1);
    assert_eq!(files[0].path, "out.csv");
    let expected = format!(
        "{}{}{}",
        HEADING, "0,\"main\",0,\"io\",\"read\",1,50,30,50,0\n",
        "0,\"main\",1,\"cpu\",\"parse\",1,20,20,20,0\n"
    );
    assert_eq!(text(&files[0].bytes), expected);
}

#[test]
fn table_of_no_frames_is_the_heading() {
    let e = engine();
    assert_eq!(frames(&e).len(), 0);
    let mut probe = engine();
    let token = get_token(&mut probe, "g".to_string(), "s".to_string(), 0);
    assert_eq!(token, 1);
    let files = dump_file_immediately_at(&mut probe, "", "t.csv", 5);
    assert_eq!(text(&files[0].bytes), HEADING);
}

#[test]
fn table_doubles_quotes_in_names() {
    let mut e = engine();
    on_thread_create(&mut e, 1, "the \"main\" one").unwrap();
    let t = get_token(&mut e, "a,b".to_string(), "say \"hi\"".to_string(), 0);
    enter_at(&mut e, 1, t, 1);
    leave_at(&mut e, 1, 3);
    let files = dump_file_immediately_at(&mut e, "", "out.csv", 5);
    let expected = format!(
        "{}{}",
        HEADING, "0,\"the \"\"main\"\" one\",0,\"a,b\",\"say \"\"hi\"\"\",1,2,2,2,0\n"
    );
    assert_eq!(text(&files[0].bytes), expected);
}

#[test]
fn table_keeps_text_beyond_ascii() {
    let mut e = engine();
    on_thread_create(&mut e, 1, "fil\u{e9}").unwrap();
    let t = get_token(&mut e, "gr\u{fc}n".to_string(), "\u{6e2c}\u{5b9a}".to_string(), 0);
    enter_at(&mut e, 1, t, 1);
    leave_at(&mut e, 1, 3);
    let files = dump_file_immediately_at(&mut e, "", "out.csv", 5);
    let expected = format!(
        "{}{}",
        HEADING, "0,\"fil\u{e9}\",0,\"gr\u{fc}n\",\"\u{6e2c}\u{5b9a}\",1,2,2,2,0\n"
    );
    assert_eq!(text(&files[0].bytes), expected);
}

#[test]
fn table_marks_spanning_calls_and_numbers_frames() {
    let mut e = engine();
    on_thread_create(&mut e, 1, "main").unwrap();
    let t = get_token(&mut e, "g".to_string(), "s".to_string(), 0);
    enter_at(&mut e, 1, t, 10);
    flip_at(&mut e, 100);
    enter_at(&mut e, 1, t, 120);
    leave_at(&mut e, 1, 1354);
    let files = dump_file_immediately_at(&mut e, "", "out.csv", 2000);
    let expected = format!(
        "{}{}{}",
        HEADING, "0,\"main\",0,\"g\",\"s\",1,90,90,90,1\n",
        "1,\"main\",0,\"g\",\"s\",1,1234,1234,1234,0\n"
    );
    assert_eq!(text(&files[0].bytes), expected);
}

#[test]
fn page_is_exact() {
    let mut e = engine();
    on_thread_create(&mut e, 1, "main").unwrap();
    let read = get_token(&mut e, "io".to_string(), "read".to_string(), 0xff00ff00);
    let parse = get_token(&mut e, "cpu".to_string(), "parse".to_string(), 0x0a1b2c);
    enter_at(&mut e, 1, read, 100);
    enter_at(&mut e, 1, parse, 110);
    leave_at(&mut e, 1, 130);
    leave_at(&mut e, 1, 150);
    let files = dump_file_immediately_at(&mut e, "out.html", "", 200);
    assert_eq!(files.len(), 1);
    assert_eq!(files[0].path, "out.html");
    let expected = [
        "<!DOCTYPE html>\n<html>\n<head><meta charset=\"utf-8\"><title>Profile</title></head>\n",
        "<body>\n<h1>Profile</h1>\n<p>1000 ticks per second</p>\n",
        "<h2>Frame 0: 200 ticks from tick 0</h2>\n",
        "<details open><summary>main (0 events lost)</summary>\n<table>\n",
        "<tr><th>scope</th><th>calls</th><th>inclusive</th><th>exclusive</th><th>longest</th></tr>\n",
        "<tr><td style=\"padding-left:0em\"><span style=\"color:#00ff00\">io</span> / ",
        "<span style=\"color:#00ff00\">read</span></td>",
        "<td>1</td><td>50</td><td>30</td><td>50</td></tr>\n",
        "<tr><td style=\"padding-left:1em\"><span style=\"color:#0a1b2c\">cpu</span> / ",
        "<span style=\"color:#0a1b2c\">parse</span></td>",
        "<td>1</td><td>20</td><td>20</td><td>20</td></tr>\n",
        "</table>\n</details>\n",
        "</body>\n</html>\n",
    ]
    .concat();
    assert_eq!(text(&files[0].bytes), expected);
}

#[test]
fn page_escapes_markup_in_names() {
    let mut e = engine();
    on_thread_create(&mut e, 1, "<main> & \"co\"").unwrap();
    let t = get_token(&mut e, "a<b".to_string(), "x>y&z".to_string(), 0);
    enter_at(&mut e, 1, t, 1);
    leave_at(&mut e, 1, 3);
    let files = dump_file_immediately_at(&mut e, "out.html", "", 5);
    let page = text(&files[0].bytes);
    assert!(page.contains("<summary>&lt;main&gt; &amp; &quot;co&quot; (0 events lost)</summary>"));
    assert!(page.contains("<span style=\"color:#000000\">a&lt;b</span>"));
    assert!(page.contains("<span style=\"color:#000000\">x&gt;y&amp;z</span>"));
    assert!(!page.contains("<main>"));
}

#[test]
fn page_shows_the_color_of_group_and_scope() {
    let mut e = engine();
    let first = get_token(&mut e, "g".to_string(), "first".to_string(), 0x123456);
    let second = get_token(&mut e, "g".to_string(), "second".to_string(), 0xabcdef);
    enter_at(&mut e, 1, first, 1);
    enter_at(&mut e, 1, second, 2);
    leave_at(&mut e, 1, 3);
    leave_at(&mut e, 1, 4);
    let files = dump_file_immediately_at(&mut e, "out.html", "", 5);
    let page = text(&files[0].bytes);
    assert!(page.contains(
        "<span style=\"color:#123456\">g</span> / <span style=\"color:#123456\">first</span>"
    ));
    assert!(page.contains(
        "<span style=\"color:#123456\">g</span> / <span style=\"color:#abcdef\">second</span>"
    ));
}

#[test]
fn page_names_lost_events() {
    let mut e = init_with(
        Config { ticks_per_second: 1000, buffer_capacity: 2, history_capacity: 4 },
        0,
    );
    on_thread_create(&mut e, 1, "main").unwrap();
    let t = get_token(&mut e, "g".to_string(), "s".to_string(), 0);
    enter_at(&mut e, 1, t, 1);
    leave_at(&mut e, 1, 2);
    enter_at(&mut e, 1, t, 3);
    leave_at(&mut e, 1, 4);
    enter_at(&mut e, 1, t, 5);
    let files = dump_file_immediately_at(&mut e, "out.html", "", 10);
    let page = text(&files[0].bytes);
    assert!(page.contains("<summary>main (3 events lost)</summary>"));
}

#[test]
fn both_files_come_page_first() {
    let mut e = engine();
    let files = dump_file_immediately_at(&mut e, "a.html", "a.csv", 5);
    assert_eq!(files.len(), 2);
    assert_eq!(files[0].path, "a.html");
    assert_eq!(files[1].path, "a.csv");
    assert!(text(&files[0].bytes).starts_with("<!DOCTYPE html>"));
    assert_eq!(text(&files[1].bytes), HEADING);
}

#[test]
fn writers_are_deterministic() {
    let mut a = engine();
    let mut b = engine();
    for e in [&mut a, &mut b] {
        on_thread_create(e, 2, "worker").unwrap();
        on_thread_create(e, 1, "main").unwrap();
        let x = get_token(e, "g".to_string(), "x".to_string(), 0);
        let y = get_token(e, "g".to_string(), "y".to_string(), 0);
        enter_at(e, 1, y, 10);
        enter_at(e, 2, x, 12);
        leave_at(e, 2, 20);
        enter_at(e, 1, x, 22);
        leave_at(e, 1, 25);
        leave_at(e, 1, 30);
        flip_at(e, 40);
    }
    let first = dump_file_immediately_at(&mut a, "p.html", "t.csv", 50);
    let second = dump_file_immediately_at(&mut b, "p.html", "t.csv", 50);
    assert_eq!(first[0].bytes, second[0].bytes);
    assert_eq!(first[1].bytes, second[1].bytes);
    let table = text(&first[1].bytes);
    let lines: Vec<&str> = table.lines().collect();
    assert_eq!(lines.len(), 4);
    assert_eq!(lines[1], "0,\"worker\",0,\"g\",\"x\",1,8,8,8,0");
    assert_eq!(lines[2], "0,\"main\",0,\"g\",\"y\",1,20,17,20,0");
    assert_eq!(lines[3], "0,\"main\",1,\"g\",\"x\",1,3,3,3,0");
}

#[test]
fn waiting_report_comes_with_the_first_spike() {
    let mut e = engine();
    let t = get_token(&mut e, "g".to_string(), "s".to_string(), 0);
    dump_file(
        &mut e,
        "spike.html".to_string(),
        "spike.csv".to_string(),
        Seconds { whole: 0, nanos: 50_000_000 },
        Seconds { whole: 0, nanos: 0 },
    )
    .unwrap();
    enter_at(&mut e, 1, t, 10);
    leave_at(&mut e, 1, 60);
    assert!(flip_at(&mut e, 100).is_empty());
    enter_at(&mut e, 1, t, 110);
    leave_at(&mut e, 1, 130);
    enter_at(&mut e, 1, t, 140);
    leave_at(&mut e, 1, 171);
    let files = flip_at(&mut e, 200);
    assert_eq!(files.len(), 2);
    assert_eq!(files[0].path, "spike.html");
    assert_eq!(files[1].path, "spike.csv");
    let expected = format!(
        "{}{}{}",
        HEADING, "0,\"\",0,\"g\",\"s\",1,50,50,50,0\n", "1,\"\",0,\"g\",\"s\",2,51,51,31,0\n"
    );
    assert_eq!(text(&files[1].bytes), expected);
    enter_at(&mut e, 1, t, 210);
    leave_at(&mut e, 1, 290);
    assert!(flip_at(&mut e, 300).is_empty());
}

#[test]
fn waiting_report_skips_the_empty_path() {
    let mut e = engine();
    let t = get_token(&mut e, "g".to_string(), "s".to_string(), 0);
    dump_file(
        &mut e,
        "".to_string(),
        "only.csv".to_string(),
        Seconds { whole: 0, nanos: 0 },
        Seconds { whole: 9, nanos: 0 },
    )
    .unwrap();
    assert!(flip_at(&mut e, 10).is_empty());
    enter_at(&mut e, 1, t, 20);
    leave_at(&mut e, 1, 21);
    let files = flip_at(&mut e, 30);
    assert_eq!(files.len(), 1);
    assert_eq!(files[0].path, "only.csv");
}

#[test]
fn later_request_replaces_the_waiting_one() {
    let mut e = engine();
    let t = get_token(&mut e, "g".to_string(), "s".to_string(), 0);
    let none = Seconds { whole: 0, nanos: 0 };
    dump_file(&mut e, "first.html".to_string(), "".to_string(), none, none).unwrap();
    dump_file(&mut e, "second.html".to_string(), "".to_string(), none, none).unwrap();
    enter_at(&mut e, 1, t, 20);
    leave_at(&mut e, 1, 21);
    let files = flip_at(&mut e, 30);
    assert_eq!(files.len(), 1);
    assert_eq!(files[0].path, "second.html");
}

#[test]
fn writers_take_frames_directly() {
    let mut registry = Registry::new(true);
    let known = registry.get_token("g".to_string(), "s".to_string(), 0x00c0ffee);
    let node = |token: u64, parent: Option<usize>, depth: usize| Node {
        token,
        parent,
        depth,
        call_count: 2,
        inclusive: 9,
        exclusive: 4,
        max_single: 6,
        spanning: false,
    };
    let frame = Frame {
        index: 7,
        start: 100,
        duration: 50,
        threads: vec![ThreadFrame {
            thread: 1,
            name: "t".to_string(),
            nodes: vec![node(known, None, 0), node(99, Some(0), 1)],
            unmatched_leaves: 0,
            event_count: 8,
            dropped_events: 0,
        }],
    };
    let frames = vec![frame];
    let table = text(&write_csv(&frames, &registry));
    let expected = format!(
        "{}{}{}",
        HEADING, "7,\"t\",0,\"g\",\"s\",2,9,4,6,0\n", "7,\"t\",1,\"?\",\"?\",2,9,4,6,0\n"
    );
    assert_eq!(table, expected);
    let page = text(&write_html(&frames, &registry, 0));
    assert!(page.contains("<p>0 ticks per second</p>"));
    assert!(page.contains("<h2>Frame 7: 50 ticks from tick 100</h2>"));
    assert!(page.contains(
        "<span style=\"color:#c0ffee\">g</span> / <span style=\"color:#c0ffee\">s</span>"
    ));
    assert!(page.contains(
        "<span style=\"color:#000000\">?</span> / <span style=\"color:#000000\">?</span>"
    ));
}
