use microprofile::{build_call_tree, EventKind, ScopeEvent};

fn enter(token: u64, timestamp: u64) -> ScopeEvent {
    ScopeEvent { token, timestamp, kind: EventKind::Enter }
}

fn leave(token: u64, timestamp: u64) -> ScopeEvent {
    ScopeEvent { token, timestamp, kind: EventKind::Leave }
}

#[test]
fn empty_events_give_an_empty_tree() {
    let tree = build_call_tree(&vec![], 1000);
    assert_eq!(tree.nodes.len(), 0);
    assert_eq!(tree.unmatched_leaves, 0);
}

#[test]
fn exclusive_is_inclusive_less_children() {
    let events = vec![
        enter(1, 10),
        enter(2, 20),
        leave(2, 50),
        enter(3, 60),
        leave(3, 80),
        leave(1, 110),
    ];
    let tree = build_call_tree(&events, 200);
    assert_eq!(tree.unmatched_leaves, 0);
    assert_eq!(tree.nodes.len(), 3);
    let a = tree.nodes[0];
    let b = tree.nodes[1];
    let c = tree.nodes[2];
    assert_eq!((a.token, a.parent, a.depth), (1, None, 0));
    assert_eq!((b.token, b.parent, b.depth), (2, Some(0), 1));
    assert_eq!((c.token, c.parent, c.depth), (3, Some(0), 1));
    assert_eq!((a.inclusive, a.exclusive, a.max_single, a.call_count), (100, 50, 100, 1));
    assert_eq!((b.inclusive, b.exclusive, b.max_single, b.call_count), (30, 30, 30, 1));
    assert_eq!((c.inclusive, c.exclusive, c.max_single, c.call_count), (20, 20, 20, 1));
    assert!(!a.spanning && !b.spanning && !c.spanning);
}

#[test]
fn depth_follows_nesting() {
    let events = vec![
        enter(1, 0),
        enter(2, 1),
        enter(3, 2),
        enter(4, 3),
        leave(4, 4),
        leave(3, 5),
        leave(2, 6),
        leave(1, 7),
        enter(4, 8),
        leave(4, 9),
    ];
    let tree = build_call_tree(&events, 10);
    assert_eq!(tree.nodes.len(), 5);
    for i in 0..4 {
        assert_eq!(tree.nodes[i].token, i as u64 + 1);
        assert_eq!(tree.nodes[i].depth, i);
    }
    assert_eq!(tree.nodes[3].parent, Some(2));
    assert_eq!(tree.nodes[4].token, 4);
    assert_eq!(tree.nodes[4].depth, 0);
    assert_eq!(tree.nodes[4].parent, None);
    assert_eq!(tree.nodes[0].inclusive, 7);
    assert_eq!(tree.nodes[0].exclusive, 2);
    assert_eq!(tree.nodes[3].exclusive, 1);
}

#[test]
fn calls_of_one_token_under_one_parent_share_a_node() {
    let events = vec![
        enter(1, 0),
        enter(2, 10),
        leave(2, 15),
        enter(2, 20),
        leave(2, 40),
        enter(2, 50),
        leave(2, 52),
        leave(1, 100),
    ];
    let tree = build_call_tree(&events, 100);
    assert_eq!(tree.nodes.len(), 2);
    let inner = tree.nodes[1];
    assert_eq!(inner.call_count, 3);
    assert_eq!(inner.inclusive, 27);
    assert_eq!(inner.max_single, 20);
    assert_eq!(tree.nodes[0].exclusive, 73);
}

#[test]
fn recursion_makes_a_node_for_each_level() {
    let events = vec![enter(1, 0), enter(1, 10), leave(1, 30), leave(1, 50)];
    let tree = build_call_tree(&events, 60);
    assert_eq!(tree.nodes.len(), 2);
    assert_eq!(tree.nodes[0].depth, 0);
    assert_eq!(tree.nodes[1].depth, 1);
    assert_eq!(tree.nodes[1].parent, Some(0));
    assert_eq!(tree.nodes[0].inclusive, 50);
    assert_eq!(tree.nodes[0].exclusive, 30);
    assert_eq!(tree.nodes[1].inclusive, 20);
}

#[test]
fn unmatched_leave_is_counted_and_ignored() {
    let events = vec![leave(7, 5), enter(1, 10), leave(1, 20), leave(1, 30)];
    let tree = build_call_tree(&events, 40);
    assert_eq!(tree.unmatched_leaves, 2);
    assert_eq!(tree.nodes.len(), 1);
    assert_eq!(tree.nodes[0].inclusive, 10);
    assert_eq!(tree.nodes[0].call_count, 1);
}

#[test]
fn open_scopes_are_closed_at_the_end_and_marked() {
    let events = vec![enter(1, 10), enter(2, 30), leave(2, 40), enter(3, 50)];
    let tree = build_call_tree(&events, 100);
    assert_eq!(tree.nodes.len(), 3);
    assert!(tree.nodes[0].spanning);
    assert!(!tree.nodes[1].spanning);
    assert!(tree.nodes[2].spanning);
    assert_eq!(tree.nodes[0].inclusive, 90);
    assert_eq!(tree.nodes[0].exclusive, 30);
    assert_eq!(tree.nodes[2].inclusive, 50);
    assert_eq!(tree.nodes[2].exclusive, 50);
    assert_eq!(tree.unmatched_leaves, 0);
}

#[test]
fn time_that_runs_backwards_stands_still() {
    let events = vec![enter(1, 100), leave(1, 40)];
    let tree = build_call_tree(&events, 10);
    assert_eq!(tree.nodes.len(), 1);
    assert_eq!(tree.nodes[0].inclusive, 0);
    assert_eq!(tree.nodes[0].exclusive, 0);
    assert!(!tree.nodes[0].spanning);
}

#[test]
fn largest_timestamps_do_not_overflow() {
    let events = vec![enter(1, 0), enter(2, 1), leave(2, u64::MAX), leave(1, u64::MAX)];
    let tree = build_call_tree(&events, u64::MAX);
    assert_eq!(tree.nodes[0].inclusive, u64::MAX);
    assert_eq!(tree.nodes[1].inclusive, u64::MAX - 1);
    assert_eq!(tree.nodes[0].exclusive, 1);
}
