//! From calls to events: what a thread that enters a frame with no scope
//! open logs when its scopes are entered and left in good order, and what
//! the call tree makes of it.

use crate::recorder::ThreadView;
use crate::tree::{call_tree, current_node, replay_events, EventKind, ScopeEvent};
use crate::tree_laws::{enters, leaves, lemma_depth_is_nesting, nesting_depth, well_nested};
use vstd::prelude::*;

verus! {

/// The thread after a sequence of calls, each given like the event that it
/// asks to log: an enter of its token, or a leave, at its timestamp. The
/// groups are switched on, and every enter is logged.
pub open spec fn after_calls(t: ThreadView, calls: Seq<ScopeEvent>, capacity: int) -> ThreadView
    decreases calls.len(),
{
    if calls.len() == 0 {
        t
    } else {
        let before = after_calls(t, calls.drop_last(), capacity);
        let c = calls.last();
        match c.kind {
            EventKind::Enter => before.enter(c.token, c.timestamp, c.timestamp, true, capacity),
            EventKind::Leave => before.leave(c.timestamp, true, capacity),
        }
    }
}

/// Whether the events are the calls, one for one: of the same kind and at
/// the same time, and each enter with the token of its call.
pub open spec fn events_match_calls(events: Seq<ScopeEvent>, calls: Seq<ScopeEvent>) -> bool {
    &&& events.len() == calls.len()
    &&& forall|i: int|
        0 <= i < events.len() ==> {
            &&& (#[trigger] events[i]).kind == calls[i].kind
            &&& events[i].timestamp == calls[i].timestamp
            &&& events[i].kind is Enter ==> events[i].token == calls[i].token
        }
}

/// Two sequences that agree on the kinds of their first `n` events have as
/// many enters and as many leaves among them.
proof fn lemma_same_counts(a: Seq<ScopeEvent>, b: Seq<ScopeEvent>, n: int)
    requires
        0 <= n <= a.len(),
        n <= b.len(),
        forall|i: int| 0 <= i < n ==> (#[trigger] a[i]).kind == b[i].kind,
    ensures
        enters(a, n) == enters(b, n),
        leaves(a, n) == leaves(b, n),
    decreases n,
{
    if n > 0 {
        lemma_same_counts(a, b, n - 1);
        assert(a[n - 1].kind == b[n - 1].kind);
    }
}

/// Whether a thread stands at the start of a frame with no scope open:
/// its stack and its buffer are empty.
pub open spec fn at_rest(t: ThreadView) -> bool {
    t.stack.len() == 0 && t.events.len() == 0
}

/// Calls in good order are logged one for one. A thread that enters a frame
/// with no scope open and has room for every event logs, for well-nested
/// calls, one event for each call, loses none, and has as many scopes open
/// after each call as enters are ahead of leaves.
pub proof fn lemma_calls_are_logged(
    start: ThreadView,
    calls: Seq<ScopeEvent>,
    capacity: int,
    n: int,
)
    requires
        at_rest(start),
        well_nested(calls),
        calls.len() <= capacity,
        0 <= n <= calls.len(),
    ensures
        ({
            let t = after_calls(start, calls.take(n), capacity);
            &&& events_match_calls(t.events, calls.take(n))
            &&& t.dropped == start.dropped
            &&& t.stack.len() == enters(calls, n) - leaves(calls, n)
            &&& forall|k: int| 0 <= k < t.stack.len() ==> (#[trigger] t.stack[k]).recorded
        }),
    decreases n,
{
    if n > 0 {
        let front = calls.take(n - 1);
        let c = calls[n - 1];
        assert(calls.take(n).drop_last() =~= front);
        assert(calls.take(n).last() == c);
        lemma_calls_are_logged(start, calls, capacity, n - 1);
        let before = after_calls(start, front, capacity);
        let t = after_calls(start, calls.take(n), capacity);
        assert(leaves(calls, n) <= enters(calls, n));
        match c.kind {
            EventKind::Enter => {},
            EventKind::Leave => {
                assert(before.stack.len() > 0);
                assert(before.stack.last().recorded);
            },
        }
        assert forall|i: int| 0 <= i < t.events.len() implies {
            &&& (#[trigger] t.events[i]).kind == calls.take(n)[i].kind
            &&& t.events[i].timestamp == calls.take(n)[i].timestamp
            &&& t.events[i].kind is Enter ==> t.events[i].token == calls.take(n)[i].token
        } by {
            if i < n - 1 {
                assert(t.events[i] == before.events[i]);
                assert(before.events[i].kind == front[i].kind);
            }
        }
    }
}

/// Stack discipline, from the calls. For well-nested calls on a thread that
/// enters the frame with no scope open and has room for every event, the
/// call tree of the frame books call `i`, an enter, on a node with the token
/// of the call at the depth at which the call was made: the number of scopes
/// that were open then.
pub proof fn lemma_call_depth_is_nesting(
    start: ThreadView,
    calls: Seq<ScopeEvent>,
    capacity: int,
    end: u64,
    i: int,
)
    requires
        at_rest(start),
        well_nested(calls),
        calls.len() <= capacity,
        0 <= i < calls.len(),
        calls[i].kind is Enter,
    ensures
        ({
            let events = after_calls(start, calls, capacity).events;
            let tree = call_tree(events, end);
            let node = current_node(replay_events(events.take(i + 1)));
            &&& after_calls(start, calls.take(i), capacity).stack.len() == nesting_depth(calls, i)
            &&& 0 <= node < tree.nodes.len()
            &&& tree.nodes[node].token == calls[i].token
            &&& tree.nodes[node].depth == nesting_depth(calls, i)
            &&& tree.unmatched == 0
        }),
{
    let events = after_calls(start, calls, capacity).events;
    lemma_calls_are_logged(start, calls, capacity, calls.len() as int);
    lemma_calls_are_logged(start, calls, capacity, i);
    assert(calls.take(calls.len() as int) =~= calls);
    assert forall|n: int| 0 <= n <= events.len() implies #[trigger] leaves(events, n) <= enters(
        events,
        n,
    ) by {
        lemma_same_counts(events, calls, n);
        assert(leaves(calls, n) <= enters(calls, n));
    }
    assert(events[i].kind == calls[i].kind);
    lemma_depth_is_nesting(events, end, i);
    lemma_same_counts(events, calls, i);
}

} // verus!
