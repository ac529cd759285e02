//! What holds of every call tree: the accounting of inclusive and exclusive
//! time, the depth of a node against the nesting of its calls, and the tree of
//! a frame without events.

use crate::tree::{
    advance, call_tree, close_all, closed_replay, current_node, enter_call, first_match, is_open,
    leave_call, lemma_advance_wf, lemma_close_all_wf, lemma_closed_replay_wf, lemma_enter_wf,
    lemma_first_match, lemma_leave_wf, lemma_replay_wf, node_wf, open_wf, replay_events,
    replay_wf, step, EventKind, NodeView, Replay, ScopeEvent,
};
use vstd::prelude::*;

verus! {

/// The inclusive time of the children of node `p` among the first `n` nodes.
pub open spec fn children_inclusive(nodes: Seq<NodeView>, p: int, n: int) -> int
    decreases n,
{
    if n <= 0 {
        0
    } else {
        children_inclusive(nodes, p, n - 1) + (if nodes[n - 1].parent == p {
            nodes[n - 1].inclusive
        } else {
            0
        })
    }
}

/// The inclusive time of all children of node `p`; with `p == -1`, of all
/// roots.
pub open spec fn children_total(nodes: Seq<NodeView>, p: int) -> int {
    children_inclusive(nodes, p, nodes.len() as int)
}

/// The time that the open call of node `i` has run so far without being
/// counted in the node's inclusive time; zero for a node with no open call.
/// The call runs until the call inside it started, or until now.
pub open spec fn pending(s: Replay, i: int) -> int {
    if is_open(s, i) {
        let k = s.nodes[i].depth;
        (if k + 1 < s.open.len() {
            s.open[k + 1].start
        } else {
            s.now
        }) - s.open[k].start
    } else {
        0
    }
}

/// The time of node `i` adds up: what its calls took is what they spent
/// themselves plus what their children took.
pub open spec fn accounted(s: Replay, i: int) -> bool {
    s.nodes[i].inclusive + pending(s, i) == s.nodes[i].exclusive + children_total(s.nodes, i)
}

/// The time of every node adds up.
pub open spec fn replay_accounted(s: Replay) -> bool {
    forall|i: int| 0 <= i < s.nodes.len() ==> #[trigger] accounted(s, i)
}

/// Two node sequences that agree on parents, and on inclusive time but for
/// `d` more at index `j`, differ in the children's time of `p` by `d` if `j`
/// is a child of `p`, and not at all otherwise.
pub proof fn lemma_children_bump(
    a: Seq<NodeView>,
    b: Seq<NodeView>,
    p: int,
    n: int,
    j: int,
    d: int,
)
    requires
        0 <= n <= a.len(),
        n <= b.len(),
        forall|i: int| 0 <= i < n ==> (#[trigger] b[i]).parent == a[i].parent,
        forall|i: int| 0 <= i < n && i != j ==> (#[trigger] b[i]).inclusive == a[i].inclusive,
        0 <= j < n ==> b[j].inclusive == a[j].inclusive + d,
    ensures
        children_inclusive(b, p, n) == children_inclusive(a, p, n) + (if 0 <= j < n && a[j].parent
            == p {
            d
        } else {
            0
        }),
    decreases n,
{
    if n > 0 {
        lemma_children_bump(a, b, p, n - 1, j, d);
        assert(b[n - 1].parent == a[n - 1].parent);
        if n - 1 != j {
            assert(b[n - 1].inclusive == a[n - 1].inclusive);
        }
    }
}

/// A node that no node names as its parent has no children's time.
pub proof fn lemma_no_children(nodes: Seq<NodeView>, p: int, n: int)
    requires
        0 <= n <= nodes.len(),
        forall|i: int| 0 <= i < n ==> (#[trigger] nodes[i]).parent != p,
    ensures
        children_inclusive(nodes, p, n) == 0,
    decreases n,
{
    if n > 0 {
        lemma_no_children(nodes, p, n - 1);
        assert(nodes[n - 1].parent != p);
    }
}

/// Children's time is never negative where inclusive times are not.
pub proof fn lemma_children_nonnegative(nodes: Seq<NodeView>, p: int, n: int)
    requires
        0 <= n <= nodes.len(),
        forall|i: int| 0 <= i < n ==> (#[trigger] nodes[i]).inclusive >= 0,
    ensures
        children_inclusive(nodes, p, n) >= 0,
    decreases n,
{
    if n > 0 {
        lemma_children_nonnegative(nodes, p, n - 1);
        assert(nodes[n - 1].inclusive >= 0);
    }
}

/// Moving time forward keeps the accounts.
proof fn lemma_advance_accounted(s: Replay, t: int)
    requires
        replay_wf(s),
        replay_accounted(s),
    ensures
        replay_accounted(advance(s, t)),
{
    let s2 = advance(s, t);
    let len = s.open.len() as int;
    lemma_advance_wf(s, t);
    if len > 0 {
        assert(open_wf(s, len - 1));
    }
    assert forall|i: int| 0 <= i < s2.nodes.len() implies #[trigger] accounted(s2, i) by {
        assert(accounted(s, i));
        assert(node_wf(s, i));
        lemma_children_bump(s.nodes, s2.nodes, i, s.nodes.len() as int, 0, 0);
        assert(is_open(s2, i) == is_open(s, i));
    }
}

/// Opening a call keeps the accounts.
proof fn lemma_enter_accounted(s: Replay, token: u64)
    requires
        replay_wf(s),
        replay_accounted(s),
    ensures
        replay_accounted(enter_call(s, token)),
{
    let s2 = enter_call(s, token);
    let len = s.open.len() as int;
    let count = s.nodes.len() as int;
    lemma_enter_wf(s, token);
    lemma_first_match(s.nodes, current_node(s), token, 0);
    let found = first_match(s.nodes, current_node(s), token, 0);
    if len > 0 {
        assert(open_wf(s, len - 1));
    }
    assert(open_wf(s2, len));
    assert forall|i: int| 0 <= i < s2.nodes.len() implies #[trigger] accounted(s2, i) by {
        if i < count {
            assert(accounted(s, i));
            assert(node_wf(s, i));
            assert(node_wf(s2, i));
            let d = s.nodes[i].depth;
            if 0 <= d < len {
                assert(open_wf(s, d));
            }
            lemma_children_bump(s.nodes, s2.nodes, i, count, 0, 0);
            if found < 0 {
                assert(s2.nodes[count].inclusive == 0);
                assert(children_total(s2.nodes, i) == children_inclusive(s2.nodes, i, count) + (
                if s2.nodes[count].parent == i {
                    s2.nodes[count].inclusive
                } else {
                    0
                }));
            }
            assert(children_total(s2.nodes, i) == children_total(s.nodes, i));
            assert(pending(s2, i) == pending(s, i));
        } else {
            assert forall|j: int| 0 <= j < s2.nodes.len() implies (#[trigger] s2.nodes[j]).parent
                != i by {
                assert(node_wf(s2, j));
            }
            lemma_no_children(s2.nodes, i, s2.nodes.len() as int);
            assert(is_open(s2, i));
        }
    }
}

/// Closing a call keeps the accounts.
proof fn lemma_leave_accounted(s: Replay, at_end: bool)
    requires
        replay_wf(s),
        replay_accounted(s),
    ensures
        replay_accounted(leave_call(s, at_end)),
{
    let s2 = leave_call(s, at_end);
    let len = s.open.len() as int;
    let count = s.nodes.len() as int;
    lemma_leave_wf(s, at_end);
    if len > 0 {
        let c = s.open[len - 1];
        let d = s.now - c.start;
        assert(open_wf(s, len - 1));
        assert(node_wf(s, c.node));
        if len > 1 {
            assert(open_wf(s, len - 2));
        }
        assert forall|i: int| 0 <= i < s2.nodes.len() implies #[trigger] accounted(s2, i) by {
            assert(accounted(s, i));
            assert(node_wf(s, i));
            let k = s.nodes[i].depth;
            if 0 <= k < len {
                assert(open_wf(s, k));
            }
            lemma_children_bump(s.nodes, s2.nodes, i, count, c.node, d);
            if i == c.node {
                assert(is_open(s, i));
                assert(!is_open(s2, i));
            } else if s.nodes[c.node].parent == i {
                assert(len > 1);
                assert(is_open(s, i));
                assert(is_open(s2, i));
                assert(pending(s2, i) == pending(s, i) + d);
            } else {
                assert(is_open(s2, i) == is_open(s, i));
                assert(pending(s2, i) == pending(s, i));
            }
        }
    } else {
        assert forall|i: int| 0 <= i < s2.nodes.len() implies #[trigger] accounted(s2, i) by {
            assert(accounted(s, i));
            assert(is_open(s2, i) == is_open(s, i));
        }
    }
}

/// The accounts hold after any sequence of events.
proof fn lemma_replay_accounted(events: Seq<ScopeEvent>)
    ensures
        replay_wf(replay_events(events)),
        replay_accounted(replay_events(events)),
    decreases events.len(),
{
    lemma_replay_wf(events);
    if events.len() > 0 {
        let s = replay_events(events.drop_last());
        let e = events.last();
        lemma_replay_accounted(events.drop_last());
        lemma_advance_wf(s, e.timestamp as int);
        lemma_advance_accounted(s, e.timestamp as int);
        let s1 = advance(s, e.timestamp as int);
        match e.kind {
            EventKind::Enter => lemma_enter_accounted(s1, e.token),
            EventKind::Leave => lemma_leave_accounted(s1, false),
        }
    }
}

/// Closing the open calls keeps the accounts.
proof fn lemma_close_all_accounted(s: Replay)
    requires
        replay_wf(s),
        replay_accounted(s),
    ensures
        replay_accounted(close_all(s)),
    decreases s.open.len(),
{
    if s.open.len() > 0 {
        lemma_leave_wf(s, true);
        lemma_leave_accounted(s, true);
        lemma_close_all_accounted(leave_call(s, true));
    }
}

/// In the call tree of any frame, the exclusive time of a node is its
/// inclusive time less the inclusive time of its children, and lies between
/// zero and the inclusive time. The longest single call is no longer than all
/// calls together, and the inclusive time no longer than the frame.
pub proof fn lemma_exclusive_is_inclusive_less_children(
    events: Seq<ScopeEvent>,
    end: u64,
    i: int,
)
    requires
        0 <= i < call_tree(events, end).nodes.len(),
    ensures
        ({
            let nodes = call_tree(events, end).nodes;
            &&& nodes[i].exclusive == nodes[i].inclusive - children_total(nodes, i)
            &&& 0 <= nodes[i].exclusive <= nodes[i].inclusive
            &&& 0 <= nodes[i].max_single <= nodes[i].inclusive
            &&& nodes[i].inclusive <= closed_replay(events, end).now
            &&& children_total(nodes, i) >= 0
        }),
{
    let s0 = replay_events(events);
    lemma_replay_accounted(events);
    lemma_advance_wf(s0, end as int);
    lemma_advance_accounted(s0, end as int);
    let s1 = advance(s0, end as int);
    lemma_close_all_wf(s1);
    lemma_close_all_accounted(s1);
    let s = close_all(s1);
    assert(accounted(s, i));
    assert(node_wf(s, i));
    assert(!is_open(s, i));
    assert forall|j: int| 0 <= j < s.nodes.len() implies (#[trigger] s.nodes[j]).inclusive
        >= 0 by {
        assert(node_wf(s, j));
    }
    lemma_children_nonnegative(s.nodes, i, s.nodes.len() as int);
}

/// The shape of every node of a tree: a root has depth zero, any other node
/// stands after its parent and one level below it, and every node was called
/// at least once.
pub proof fn lemma_tree_shape(events: Seq<ScopeEvent>, end: u64, i: int)
    requires
        0 <= i < call_tree(events, end).nodes.len(),
    ensures
        ({
            let nodes = call_tree(events, end).nodes;
            &&& -1 <= nodes[i].parent < i
            &&& nodes[i].parent == -1 ==> nodes[i].depth == 0
            &&& nodes[i].parent >= 0 ==> nodes[i].depth == nodes[nodes[i].parent].depth + 1
            &&& nodes[i].calls >= 1
        }),
{
    lemma_closed_replay_wf(events, end);
    assert(node_wf(closed_replay(events, end), i));
}

/// A frame without events has a tree without nodes and without unmatched
/// leaves.
pub proof fn lemma_empty_frame_is_empty(end: u64)
    ensures
        call_tree(Seq::<ScopeEvent>::empty(), end).nodes.len() == 0,
        call_tree(Seq::<ScopeEvent>::empty(), end).unmatched == 0,
{
    let s = advance(replay_events(Seq::<ScopeEvent>::empty()), end as int);
    assert(s.open.len() == 0);
    assert(close_all(s) == s);
}

/// Whether the timestamps never go down and none lies beyond `limit`.
pub open spec fn in_order(events: Seq<ScopeEvent>, limit: int) -> bool {
    &&& forall|i: int, j: int|
        0 <= i <= j < events.len() ==> (#[trigger] events[i]).timestamp <= (
        #[trigger] events[j]).timestamp
    &&& forall|i: int| 0 <= i < events.len() ==> (#[trigger] events[i]).timestamp <= limit
}

/// Timestamps are taken as they are. For events in timestamp order, the
/// replay stands after each event at that event's timestamp.
pub proof fn lemma_time_follows_events(events: Seq<ScopeEvent>, limit: int, n: int)
    requires
        in_order(events, limit),
        0 < n <= events.len(),
    ensures
        replay_events(events.take(n)).now == events[n - 1].timestamp,
    decreases n,
{
    let front = events.take(n - 1);
    let e = events[n - 1];
    assert(events.take(n).drop_last() =~= front);
    assert(events.take(n).last() == e);
    lemma_replay_wf(front);
    let s = replay_events(front);
    lemma_advance_wf(s, e.timestamp as int);
    let s1 = advance(s, e.timestamp as int);
    if n > 1 {
        lemma_time_follows_events(events, limit, n - 1);
        assert(events[n - 2].timestamp <= events[n - 1].timestamp);
    } else {
        assert(front =~= Seq::<ScopeEvent>::empty());
    }
    assert(s1.now == e.timestamp);
    match e.kind {
        EventKind::Enter => lemma_enter_wf(s1, e.token),
        EventKind::Leave => lemma_leave_wf(s1, false),
    }
}

/// For events in timestamp order that end no later than the frame, the
/// frame closes at `end`, and no node's inclusive time is longer than the
/// frame.
pub proof fn lemma_frame_closes_at_end(events: Seq<ScopeEvent>, end: u64)
    requires
        in_order(events, end as int),
    ensures
        closed_replay(events, end).now == end,
        forall|i: int|
            0 <= i < call_tree(events, end).nodes.len() ==> (#[trigger] call_tree(
                events,
                end,
            ).nodes[i]).inclusive <= end,
{
    lemma_replay_wf(events);
    let s = replay_events(events);
    if events.len() > 0 {
        lemma_time_follows_events(events, end as int, events.len() as int);
        assert(events.take(events.len() as int) =~= events);
        assert(events[events.len() - 1].timestamp <= end);
    }
    lemma_advance_wf(s, end as int);
    lemma_close_all_wf(advance(s, end as int));
    let closed = closed_replay(events, end);
    assert forall|i: int| 0 <= i < closed.nodes.len() implies (#[trigger] closed.nodes[i]).inclusive
        <= end by {
        assert(node_wf(closed, i));
    }
}

/// No two nodes stand for the same token below the same parent.
pub open spec fn one_node_per_place(nodes: Seq<NodeView>) -> bool {
    forall|i: int, j: int|
        0 <= i < j < nodes.len() ==> !((#[trigger] nodes[i]).parent == (#[trigger] nodes[j]).parent
            && nodes[i].token == nodes[j].token)
}

/// The calls of the first `n` nodes together.
pub open spec fn calls_total(nodes: Seq<NodeView>, n: int) -> int
    decreases n,
{
    if n <= 0 {
        0
    } else {
        calls_total(nodes, n - 1) + nodes[n - 1].calls
    }
}

/// Two node sequences that agree on calls but for `d` more at index `j`
/// differ in their calls together by `d`, if `j` is among the first `n`.
proof fn lemma_calls_bump(a: Seq<NodeView>, b: Seq<NodeView>, n: int, j: int, d: int)
    requires
        0 <= n <= a.len(),
        n <= b.len(),
        forall|i: int| 0 <= i < n && i != j ==> (#[trigger] b[i]).calls == a[i].calls,
        0 <= j < n ==> b[j].calls == a[j].calls + d,
    ensures
        calls_total(b, n) == calls_total(a, n) + (if 0 <= j < n {
            d
        } else {
            0
        }),
    decreases n,
{
    if n > 0 {
        lemma_calls_bump(a, b, n - 1, j, d);
        if n - 1 != j {
            assert(b[n - 1].calls == a[n - 1].calls);
        }
    }
}

/// What one step of a replay keeps: one node for each place, and as many
/// calls booked as enters were replayed.
spec fn booked(s: Replay, entered: int) -> bool {
    &&& one_node_per_place(s.nodes)
    &&& calls_total(s.nodes, s.nodes.len() as int) == entered
}

/// Moving time forward books no call.
proof fn lemma_advance_booked(s: Replay, t: int, entered: int)
    requires
        replay_wf(s),
        booked(s, entered),
    ensures
        booked(advance(s, t), entered),
{
    let s2 = advance(s, t);
    lemma_advance_wf(s, t);
    if s.open.len() > 0 {
        assert(open_wf(s, s.open.len() - 1));
    }
    lemma_calls_bump(s.nodes, s2.nodes, s.nodes.len() as int, 0, 0);
    assert forall|i: int, j: int| 0 <= i < j < s2.nodes.len() implies !((
    #[trigger] s2.nodes[i]).parent == (#[trigger] s2.nodes[j]).parent && s2.nodes[i].token
        == s2.nodes[j].token) by {
        assert(!(s.nodes[i].parent == s.nodes[j].parent && s.nodes[i].token == s.nodes[j].token));
    }
}

/// Opening a call books one call, on the node for its place.
proof fn lemma_enter_booked(s: Replay, token: u64, entered: int)
    requires
        replay_wf(s),
        booked(s, entered),
    ensures
        booked(enter_call(s, token), entered + 1),
{
    let s2 = enter_call(s, token);
    let count = s.nodes.len() as int;
    lemma_enter_wf(s, token);
    lemma_first_match(s.nodes, current_node(s), token, 0);
    let found = first_match(s.nodes, current_node(s), token, 0);
    if found >= 0 {
        lemma_calls_bump(s.nodes, s2.nodes, count, found, 1);
    } else {
        lemma_calls_bump(s.nodes, s2.nodes, count, 0, 0);
    }
    assert forall|i: int, j: int| 0 <= i < j < s2.nodes.len() implies !((
    #[trigger] s2.nodes[i]).parent == (#[trigger] s2.nodes[j]).parent && s2.nodes[i].token
        == s2.nodes[j].token) by {
        if j < count {
            assert(!(s.nodes[i].parent == s.nodes[j].parent && s.nodes[i].token
                == s.nodes[j].token));
        } else {
            assert(s2.nodes[i] == s.nodes[i]);
        }
    }
}

/// Closing a call books no call.
proof fn lemma_leave_booked(s: Replay, at_end: bool, entered: int)
    requires
        replay_wf(s),
        booked(s, entered),
    ensures
        booked(leave_call(s, at_end), entered),
{
    let s2 = leave_call(s, at_end);
    lemma_leave_wf(s, at_end);
    if s.open.len() > 0 {
        assert(open_wf(s, s.open.len() - 1));
    }
    lemma_calls_bump(s.nodes, s2.nodes, s.nodes.len() as int, 0, 0);
    assert forall|i: int, j: int| 0 <= i < j < s2.nodes.len() implies !((
    #[trigger] s2.nodes[i]).parent == (#[trigger] s2.nodes[j]).parent && s2.nodes[i].token
        == s2.nodes[j].token) by {
        assert(!(s.nodes[i].parent == s.nodes[j].parent && s.nodes[i].token == s.nodes[j].token));
    }
}

/// After any sequence of events, every enter is booked once.
proof fn lemma_replay_booked(events: Seq<ScopeEvent>)
    ensures
        booked(replay_events(events), enters(events, events.len() as int)),
    decreases events.len(),
{
    if events.len() > 0 {
        let front = events.drop_last();
        let s = replay_events(front);
        let e = events.last();
        lemma_replay_wf(front);
        lemma_replay_booked(front);
        lemma_enters_of_front(events);
        let n = enters(front, front.len() as int);
        lemma_advance_wf(s, e.timestamp as int);
        lemma_advance_booked(s, e.timestamp as int, n);
        let s1 = advance(s, e.timestamp as int);
        match e.kind {
            EventKind::Enter => lemma_enter_booked(s1, e.token, n),
            EventKind::Leave => lemma_leave_booked(s1, false, n),
        }
    }
}

/// Counting the enters of a sequence without its last event gives the same
/// as counting all but the last in the whole.
proof fn lemma_enters_of_front(events: Seq<ScopeEvent>)
    requires
        events.len() > 0,
    ensures
        enters(events.drop_last(), events.len() - 1) == enters(events, events.len() - 1),
{
    lemma_enters_agree(events.drop_last(), events, events.len() - 1);
}

/// Two sequences that agree on their first `n` events have as many enters
/// among them.
proof fn lemma_enters_agree(a: Seq<ScopeEvent>, b: Seq<ScopeEvent>, n: int)
    requires
        0 <= n <= a.len(),
        n <= b.len(),
        forall|i: int| 0 <= i < n ==> a[i] == b[i],
    ensures
        enters(a, n) == enters(b, n),
    decreases n,
{
    if n > 0 {
        lemma_enters_agree(a, b, n - 1);
    }
}

/// Closing the open calls books no call.
proof fn lemma_close_all_booked(s: Replay, entered: int)
    requires
        replay_wf(s),
        booked(s, entered),
    ensures
        booked(close_all(s), entered),
    decreases s.open.len(),
{
    if s.open.len() > 0 {
        lemma_leave_wf(s, true);
        lemma_leave_booked(s, true, entered);
        lemma_close_all_booked(leave_call(s, true), entered);
    }
}

/// Every call is booked once. The tree of a frame has one node for each
/// token below each parent, and the calls of all its nodes together are as
/// many as the frame has enters.
pub proof fn lemma_every_call_is_booked(events: Seq<ScopeEvent>, end: u64)
    ensures
        one_node_per_place(call_tree(events, end).nodes),
        calls_total(call_tree(events, end).nodes, call_tree(events, end).nodes.len() as int)
            == enters(events, events.len() as int),
{
    let s = replay_events(events);
    let n = enters(events, events.len() as int);
    lemma_replay_wf(events);
    lemma_replay_booked(events);
    lemma_advance_wf(s, end as int);
    lemma_advance_booked(s, end as int, n);
    lemma_close_all_booked(advance(s, end as int), n);
}

/// The root calls that have closed took no longer than the time up to the
/// start of the root call that is open, or up to now if none is.
pub open spec fn roots_bounded(s: Replay) -> bool {
    children_total(s.nodes, -1) <= (if s.open.len() > 0 {
        s.open[0].start
    } else {
        s.now
    })
}

/// Moving time forward keeps the root calls within the time.
proof fn lemma_advance_roots(s: Replay, t: int)
    requires
        replay_wf(s),
        roots_bounded(s),
    ensures
        roots_bounded(advance(s, t)),
{
    let s2 = advance(s, t);
    lemma_advance_wf(s, t);
    if s.open.len() > 0 {
        assert(open_wf(s, s.open.len() - 1));
    }
    lemma_children_bump(s.nodes, s2.nodes, -1, s.nodes.len() as int, 0, 0);
}

/// Opening a call keeps the root calls within the time.
proof fn lemma_enter_roots(s: Replay, token: u64)
    requires
        replay_wf(s),
        roots_bounded(s),
    ensures
        roots_bounded(enter_call(s, token)),
{
    let s2 = enter_call(s, token);
    let count = s.nodes.len() as int;
    lemma_enter_wf(s, token);
    lemma_first_match(s.nodes, current_node(s), token, 0);
    lemma_children_bump(s.nodes, s2.nodes, -1, count, 0, 0);
    if first_match(s.nodes, current_node(s), token, 0) < 0 {
        assert(s2.nodes[count].inclusive == 0);
        assert(children_total(s2.nodes, -1) == children_inclusive(s2.nodes, -1, count) + (
        if s2.nodes[count].parent == -1 {
            s2.nodes[count].inclusive
        } else {
            0
        }));
    }
    if s.open.len() > 0 {
        assert(s2.open[0] == s.open[0]);
    }
}

/// Closing a call keeps the root calls within the time.
proof fn lemma_leave_roots(s: Replay, at_end: bool)
    requires
        replay_wf(s),
        roots_bounded(s),
    ensures
        roots_bounded(leave_call(s, at_end)),
{
    let s2 = leave_call(s, at_end);
    let len = s.open.len() as int;
    lemma_leave_wf(s, at_end);
    if len > 0 {
        let c = s.open[len - 1];
        assert(open_wf(s, len - 1));
        lemma_children_bump(s.nodes, s2.nodes, -1, s.nodes.len() as int, c.node, s.now - c.start);
        if len > 1 {
            assert(open_wf(s, len - 2));
            assert(s2.open[0] == s.open[0]);
        }
    }
}

/// The root calls stay within the time after any sequence of events.
proof fn lemma_replay_roots(events: Seq<ScopeEvent>)
    ensures
        roots_bounded(replay_events(events)),
    decreases events.len(),
{
    if events.len() > 0 {
        let s = replay_events(events.drop_last());
        let e = events.last();
        lemma_replay_wf(events.drop_last());
        lemma_replay_roots(events.drop_last());
        lemma_advance_wf(s, e.timestamp as int);
        lemma_advance_roots(s, e.timestamp as int);
        let s1 = advance(s, e.timestamp as int);
        match e.kind {
            EventKind::Enter => lemma_enter_roots(s1, e.token),
            EventKind::Leave => lemma_leave_roots(s1, false),
        }
    }
}

/// Closing the open calls keeps the root calls within the time.
proof fn lemma_close_all_roots(s: Replay)
    requires
        replay_wf(s),
        roots_bounded(s),
    ensures
        roots_bounded(close_all(s)),
    decreases s.open.len(),
{
    if s.open.len() > 0 {
        lemma_leave_wf(s, true);
        lemma_leave_roots(s, true);
        lemma_close_all_roots(leave_call(s, true));
    }
}

/// The root calls of a thread took, all together, no longer than the frame:
/// for events in timestamp order that end no later than the frame, their
/// inclusive time adds up to at most `end`.
pub proof fn lemma_roots_fit_the_frame(events: Seq<ScopeEvent>, end: u64)
    requires
        in_order(events, end as int),
    ensures
        0 <= children_total(call_tree(events, end).nodes, -1) <= end,
{
    let s = replay_events(events);
    lemma_replay_wf(events);
    lemma_replay_roots(events);
    lemma_advance_wf(s, end as int);
    lemma_advance_roots(s, end as int);
    let s1 = advance(s, end as int);
    lemma_close_all_wf(s1);
    lemma_close_all_roots(s1);
    lemma_frame_closes_at_end(events, end);
    let closed = close_all(s1);
    assert forall|j: int| 0 <= j < closed.nodes.len() implies (#[trigger] closed.nodes[j]).inclusive
        >= 0 by {
        assert(node_wf(closed, j));
    }
    lemma_children_nonnegative(closed.nodes, -1, closed.nodes.len() as int);
}

/// The number of enters among the first `n` events.
pub open spec fn enters(events: Seq<ScopeEvent>, n: int) -> int
    decreases n,
{
    if n <= 0 {
        0
    } else {
        enters(events, n - 1) + (if events[n - 1].kind is Enter {
            1int
        } else {
            0int
        })
    }
}

/// The number of leaves among the first `n` events.
pub open spec fn leaves(events: Seq<ScopeEvent>, n: int) -> int
    decreases n,
{
    if n <= 0 {
        0
    } else {
        leaves(events, n - 1) + (if events[n - 1].kind is Leave {
            1int
        } else {
            0int
        })
    }
}

/// Every leave has an enter before it that no earlier leave has taken.
pub open spec fn well_nested(events: Seq<ScopeEvent>) -> bool {
    forall|n: int| 0 <= n <= events.len() ==> #[trigger] leaves(events, n) <= enters(events, n)
}

/// The number of scopes that are open just before event `i`.
pub open spec fn nesting_depth(events: Seq<ScopeEvent>, i: int) -> int {
    enters(events, i) - leaves(events, i)
}

/// Two nodes stand for the same token at the same place.
pub open spec fn same_place(a: NodeView, b: NodeView) -> bool {
    a.token == b.token && a.parent == b.parent && a.depth == b.depth
}

/// `b` has every node of `a`, at the same index and place.
pub open spec fn keeps_nodes(a: Seq<NodeView>, b: Seq<NodeView>) -> bool {
    &&& a.len() <= b.len()
    &&& forall|i: int| 0 <= i < a.len() ==> same_place(a[i], #[trigger] b[i])
}

/// Moving time forward keeps every node in its place.
proof fn lemma_advance_keeps(s: Replay, t: int)
    requires
        replay_wf(s),
    ensures
        keeps_nodes(s.nodes, advance(s, t).nodes),
{
    if s.open.len() > 0 {
        assert(open_wf(s, s.open.len() - 1));
    }
}

/// Closing a call keeps every node in its place.
proof fn lemma_leave_keeps(s: Replay, at_end: bool)
    requires
        replay_wf(s),
    ensures
        keeps_nodes(s.nodes, leave_call(s, at_end).nodes),
{
    if s.open.len() > 0 {
        assert(open_wf(s, s.open.len() - 1));
    }
}

/// Opening a call keeps every node in its place.
proof fn lemma_enter_keeps(s: Replay, token: u64)
    requires
        replay_wf(s),
    ensures
        keeps_nodes(s.nodes, enter_call(s, token).nodes),
{
    lemma_first_match(s.nodes, current_node(s), token, 0);
}

/// Keeping nodes in place carries over two steps.
proof fn lemma_keeps_transitive(a: Seq<NodeView>, b: Seq<NodeView>, c: Seq<NodeView>)
    requires
        keeps_nodes(a, b),
        keeps_nodes(b, c),
    ensures
        keeps_nodes(a, c),
{
    assert forall|i: int| 0 <= i < a.len() implies same_place(a[i], #[trigger] c[i]) by {
        assert(same_place(a[i], b[i]));
        assert(same_place(b[i], c[i]));
    }
}

/// One event keeps every node in its place.
proof fn lemma_step_keeps(s: Replay, e: ScopeEvent)
    requires
        replay_wf(s),
    ensures
        keeps_nodes(s.nodes, step(s, e).nodes),
{
    let s1 = advance(s, e.timestamp as int);
    lemma_advance_wf(s, e.timestamp as int);
    lemma_advance_keeps(s, e.timestamp as int);
    match e.kind {
        EventKind::Enter => lemma_enter_keeps(s1, e.token),
        EventKind::Leave => lemma_leave_keeps(s1, false),
    }
    lemma_keeps_transitive(s.nodes, s1.nodes, step(s, e).nodes);
}

/// The nodes after the first `m` events keep their place to the end.
proof fn lemma_replay_keeps(events: Seq<ScopeEvent>, m: int)
    requires
        0 <= m <= events.len(),
    ensures
        keeps_nodes(replay_events(events.take(m)).nodes, replay_events(events).nodes),
    decreases events.len(),
{
    if m == events.len() {
        assert(events.take(m) =~= events);
    } else {
        let front = events.drop_last();
        assert(front.take(m) =~= events.take(m));
        lemma_replay_keeps(front, m);
        lemma_replay_wf(front);
        lemma_step_keeps(replay_events(front), events.last());
        lemma_keeps_transitive(
            replay_events(events.take(m)).nodes,
            replay_events(front).nodes,
            replay_events(events).nodes,
        );
    }
}

/// Closing the open calls keeps every node in its place.
proof fn lemma_close_all_keeps(s: Replay)
    requires
        replay_wf(s),
    ensures
        keeps_nodes(s.nodes, close_all(s).nodes),
    decreases s.open.len(),
{
    if s.open.len() > 0 {
        let s1 = leave_call(s, true);
        lemma_leave_wf(s, true);
        lemma_leave_keeps(s, true);
        lemma_close_all_keeps(s1);
        lemma_keeps_transitive(s.nodes, s1.nodes, close_all(s).nodes);
    }
}

/// After the first `n` of a well-nested sequence of events, as many calls are
/// open as enters are ahead of leaves, and no leave went unmatched.
pub proof fn lemma_open_calls_of_well_nested(events: Seq<ScopeEvent>, n: int)
    requires
        well_nested(events),
        0 <= n <= events.len(),
    ensures
        replay_events(events.take(n)).open.len() == enters(events, n) - leaves(events, n),
        replay_events(events.take(n)).unmatched == 0,
    decreases n,
{
    if n > 0 {
        let front = events.take(n - 1);
        let e = events[n - 1];
        assert(events.take(n).drop_last() =~= front);
        assert(events.take(n).last() == e);
        lemma_open_calls_of_well_nested(events, n - 1);
        lemma_replay_wf(front);
        let s = replay_events(front);
        lemma_advance_wf(s, e.timestamp as int);
        let s1 = advance(s, e.timestamp as int);
        assert(leaves(events, n) <= enters(events, n));
        match e.kind {
            EventKind::Enter => lemma_enter_wf(s1, e.token),
            EventKind::Leave => {
                assert(s1.open.len() > 0);
            },
        }
    }
}

/// Stack discipline. In a well-nested sequence of events, the call that
/// event `i` enters is booked on a node of the finished tree that carries the
/// call's token and whose depth is the number of scopes open at the call.
pub proof fn lemma_depth_is_nesting(events: Seq<ScopeEvent>, end: u64, i: int)
    requires
        well_nested(events),
        0 <= i < events.len(),
        events[i].kind is Enter,
    ensures
        ({
            let node = current_node(replay_events(events.take(i + 1)));
            let tree = call_tree(events, end);
            &&& 0 <= node < tree.nodes.len()
            &&& tree.nodes[node].token == events[i].token
            &&& tree.nodes[node].depth == nesting_depth(events, i)
            &&& tree.unmatched == 0
        }),
{
    let e = events[i];
    let front = events.take(i);
    assert(events.take(i + 1).drop_last() =~= front);
    assert(events.take(i + 1).last() == e);
    lemma_open_calls_of_well_nested(events, i);
    lemma_replay_wf(front);
    let s = replay_events(front);
    lemma_advance_wf(s, e.timestamp as int);
    let s1 = advance(s, e.timestamp as int);
    lemma_enter_wf(s1, e.token);
    lemma_first_match(s1.nodes, current_node(s1), e.token, 0);
    let s2 = enter_call(s1, e.token);
    assert(s2 == replay_events(events.take(i + 1)));
    let len = s.open.len() as int;
    assert(open_wf(s2, len));
    let node = current_node(s2);
    assert(s2.nodes[node].token == e.token);
    // the node keeps its place until the frame closes
    let whole = replay_events(events);
    lemma_replay_keeps(events, i + 1);
    lemma_replay_wf(events);
    lemma_advance_wf(whole, end as int);
    lemma_advance_keeps(whole, end as int);
    let at_end = advance(whole, end as int);
    lemma_close_all_wf(at_end);
    lemma_close_all_keeps(at_end);
    lemma_keeps_transitive(s2.nodes, whole.nodes, at_end.nodes);
    lemma_keeps_transitive(s2.nodes, at_end.nodes, close_all(at_end).nodes);
    assert(same_place(s2.nodes[node], close_all(at_end).nodes[node]));
    lemma_open_calls_of_well_nested(events, events.len() as int);
    assert(events.take(events.len() as int) =~= events);
}

} // verus!
