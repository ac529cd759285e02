//! What holds of the engine across calls: which calls make frames, what a
//! flip makes of empty buffers, and what a switched-off group records.

use crate::clock::Seconds;
use crate::engine::{find_live, lemma_find_live, reports, EngineView};
use crate::frame::FrameView;
use crate::registry::RegistryView;
use crate::report_laws::lemma_reports_are_not_empty;
use crate::scheduler::lemma_live_after_flip;
use crate::tree::ScopeEvent;
use crate::tree_laws::{
    children_total, lemma_empty_frame_is_empty, lemma_exclusive_is_inclusive_less_children,
    lemma_frame_closes_at_end, lemma_roots_fit_the_frame,
};
use vstd::prelude::*;

verus! {

/// Whether every thread's buffer is empty.
pub open spec fn nothing_recorded(e: EngineView) -> bool {
    forall|i: int| 0 <= i < e.threads.len() ==> (#[trigger] e.threads[i]).events.len() == 0
}

/// Whether `after` holds, thread by thread, the events that `before` holds,
/// and none in a thread that `before` does not have.
pub open spec fn same_events(before: EngineView, after: EngineView) -> bool {
    &&& before.threads.len() <= after.threads.len()
    &&& forall|i: int|
        0 <= i < after.threads.len() ==> (#[trigger] after.threads[i]).events == (if i
            < before.threads.len() {
            before.threads[i].events
        } else {
            Seq::<ScopeEvent>::empty()
        })
}

/// Whether `after` differs from `before` in nothing but the stacks of open
/// scopes, and the threads that were registered to hold one: every buffer
/// and every count of lost events, all three counters of errors, the time
/// seen, the frames kept and everything else are as they were.
pub open spec fn only_stacks_differ(before: EngineView, after: EngineView) -> bool {
    &&& same_events(before, after)
    &&& forall|i: int|
        0 <= i < after.threads.len() ==> (#[trigger] after.threads[i]).dropped == (if i
            < before.threads.len() {
            before.threads[i].dropped
        } else {
            0
        })
    &&& after == (EngineView { threads: after.threads, ..before })
}

/// Token idempotence. On an engine that is alive, a second request for a
/// pair, whatever its color, returns the token of the first and leaves the
/// engine as the first left it.
pub proof fn lemma_token_request_idempotent(
    e: EngineView,
    group: Seq<char>,
    name: Seq<char>,
    color: u32,
    again: u32,
)
    requires
        e.alive,
        e.wf(),
        e.registry.timers.len() < u64::MAX,
    ensures
        ({
            let (e1, first) = e.token_requested(group, name, color);
            &&& e1.token_requested(group, name, again) == (e1, first)
            &&& first != crate::registry::NO_TOKEN
            &&& e1.registry.group_name(first) == group
            &&& e1.registry.scope_name(first) == name
        }),
{
    crate::registry::lemma_register_idempotent(e.registry, group, name, color, again);
    crate::registry::lemma_register_wf(e.registry, group, name, color);
}

/// Inclusive and exclusive time. In the frame that a flip closes, the
/// exclusive time of every node is its inclusive time less that of its
/// children; it lies between zero and the inclusive time, which is no longer
/// than the frame; and the root calls of a thread took no longer than the
/// frame all together.
pub proof fn lemma_frame_times_add_up(e: EngineView, now: u64, i: int, j: int)
    requires
        e.wf(),
        0 <= i < e.threads.len(),
        0 <= j < e.closing_frame(now).threads[i].tree.nodes.len(),
    ensures
        ({
            let frame = e.closing_frame(now);
            let nodes = frame.threads[i].tree.nodes;
            &&& nodes[j].exclusive == nodes[j].inclusive - children_total(nodes, j)
            &&& 0 <= nodes[j].exclusive <= nodes[j].inclusive <= frame.duration
            &&& 0 <= nodes[j].max_single <= nodes[j].inclusive
            &&& 0 <= frame.threads[i].root_total() <= frame.duration
        }),
{
    crate::engine::lemma_observe_wf(e, now);
    let seen = e.observe(now);
    let events = seen.threads[i].events;
    assert(seen.threads[i].buffer_ok(seen.config.buffer_capacity as int, seen.elapsed as int));
    lemma_exclusive_is_inclusive_less_children(events, seen.elapsed, j);
    lemma_frame_closes_at_end(events, seen.elapsed);
    lemma_roots_fit_the_frame(events, seen.elapsed);
}

/// Flip on empty input. A flip that finds every buffer empty closes a frame
/// in which no thread has a node or an unmatched leave, and which is a spike
/// for no threshold; the frame is the newest that the engine keeps.
pub proof fn lemma_flip_without_events(e: EngineView, now: u64, threshold: u64)
    requires
        e.alive,
        nothing_recorded(e),
    ensures
        e.flip_requested(now).history.len() > 0,
        e.flip_requested(now).history.last() == e.closing_frame(now),
        e.closing_frame(now).has_no_nodes(),
        forall|i: int|
            0 <= i < e.closing_frame(now).threads.len() ==> (#[trigger] e.closing_frame(
                now,
            ).threads[i]).tree.unmatched == 0,
        !e.closing_frame(now).exceeds(threshold),
        !e.dump_due(now),
        e.flip_request_reports(now).len() == 0,
{
    let end = e.observe(now).elapsed;
    let frame = e.closing_frame(now);
    lemma_empty_frame_is_empty(end);
    assert forall|i: int| 0 <= i < frame.threads.len() implies {
        &&& (#[trigger] frame.threads[i]).tree.nodes.len() == 0
        &&& frame.threads[i].tree.unmatched == 0
        &&& frame.threads[i].root_total() == 0
    } by {
        assert(e.threads[i].events.len() == 0);
        assert(e.threads[i].events =~= Seq::<ScopeEvent>::empty());
    }
    if e.pending is Some {
        assert(!frame.exceeds(e.pending->0.threshold));
    }
}

/// Two flips in a row. Whatever the first flip found, the second, with no
/// enter or leave between them, finds every buffer empty.
pub proof fn lemma_nothing_recorded_after_flip(e: EngineView, now: u64)
    requires
        e.alive,
    ensures
        nothing_recorded(e.flip_requested(now)),
        e.flip_requested(now).alive,
{
    lemma_live_after_flip(e.observe(now).threads);
}

/// Enable/disable gating, of a leave. While the groups are switched off, a
/// leave records nothing and counts nothing, whatever the stack of the
/// thread holds and whether the thread is known or not: it closes the
/// innermost open scope if there is one, and changes nothing else.
pub proof fn lemma_leave_while_off_is_silent(e: EngineView, id: u64, now: u64)
    requires
        !e.switched_on(),
    ensures
        only_stacks_differ(e, e.left(id, now)),
        e.left(id, now).diagnostics == e.diagnostics,
        e.left(id, now).threads.len() == e.threads.len(),
        ({
            let i = find_live(e.threads, id, 0);
            &&& i < 0 ==> e.left(id, now) == e
            &&& i >= 0 && e.threads[i].stack.len() == 0 ==> e.left(id, now) == e
            &&& i >= 0 && e.threads[i].stack.len() > 0 ==> e.left(id, now).threads[i].stack
                == e.threads[i].stack.drop_last()
        }),
{
    lemma_find_live(e.threads, id, 0);
}

/// Enable/disable gating, of an enter. While the groups are switched off,
/// an enter records nothing and counts nothing, whatever its token: on an
/// engine that is alive it opens the scope, registering the thread if it
/// has to, and after shutdown it changes nothing at all.
pub proof fn lemma_enter_while_off_is_silent(e: EngineView, id: u64, token: u64, now: u64)
    requires
        !e.switched_on(),
    ensures
        only_stacks_differ(e, e.entered(id, token, now)),
        e.entered(id, token, now).diagnostics == e.diagnostics,
        !e.alive ==> e.entered(id, token, now) == e,
{
    lemma_find_live(e.threads, id, 0);
}

/// Enable/disable gating, of the switch. Once `set_enable_all_groups(false)`
/// has been called on an engine that is alive, the groups are off, and they
/// stay off through every enter and leave.
pub proof fn lemma_switch_stays_off(e: EngineView, id: u64, token: u64, now: u64)
    ensures
        e.alive ==> !e.groups_switched(false).switched_on(),
        e.entered(id, token, now).switched_on() == e.switched_on(),
        e.left(id, now).switched_on() == e.switched_on(),
{
}

/// A thread that has ended is registered no longer: after `on_thread_exit`
/// went through, no thread that has not ended carries its identifier.
pub proof fn lemma_exited_thread_is_gone(e: EngineView, id: u64)
    requires
        e.wf(),
        e.exit_error(id) is None,
    ensures
        find_live(e.thread_exited(id).threads, id, 0) == -1,
        e.thread_exited(id).creation_error(id) is None,
{
    let after = e.thread_exited(id).threads;
    lemma_find_live(e.threads, id, 0);
    lemma_find_live(after, id, 0);
    let i = find_live(e.threads, id, 0);
    let r = find_live(after, id, 0);
    if r >= 0 {
        assert(after[r].id == id && !after[r].exited);
        assert(r != i);
        assert(after[r] == e.threads[r]);
        assert(!e.threads[i].exited && !e.threads[r].exited);
        if r < i {
            assert(e.threads[r].id != e.threads[i].id);
        } else {
            assert(e.threads[i].id != e.threads[r].id);
        }
    }
}

/// Enable/disable gating, of a pair. An enter on a token that is not
/// recorded (the groups are switched off, or the registry does not know the
/// token), and the leave that follows it, log nothing: every buffer holds
/// after the two calls what it held before.
pub proof fn lemma_disabled_scope_logs_nothing(
    e: EngineView,
    id: u64,
    token: u64,
    now: u64,
    later: u64,
)
    requires
        e.alive,
        !e.registry.records(token),
    ensures
        same_events(e, e.entered(id, token, now)),
        same_events(e, e.entered(id, token, now).left(id, later)),
        e.entered(id, token, now).left(id, later).threads.len() == e.entered(
            id,
            token,
            now,
        ).threads.len(),
{
    let e1 = e.entered(id, token, now);
    let e2 = e1.left(id, later);
    lemma_find_live(e.threads, id, 0);
    lemma_find_live(e1.threads, id, 0);
    let found = find_live(e.threads, id, 0);
    let i = if found >= 0 {
        found
    } else {
        e.threads.len() as int
    };
    assert(e1.threads[i].id == id && !e1.threads[i].exited);
    assert forall|j: int| 0 <= j < i implies !((#[trigger] e1.threads[j]).id == id
        && !e1.threads[j].exited) by {
        assert(e1.threads[j] == e.threads[j]);
    }
    assert(find_live(e1.threads, id, 0) == i);
    assert(e1.threads[i].stack.len() > 0);
    assert(e1.can_leave(id));
    assert(!e1.threads[i].stack.last().recorded);
}

/// An empty path skips its file. A dump makes the page if and only if its
/// path is not empty, and the table likewise, the page first; each file goes
/// under the path that was given for it, and none is empty.
pub proof fn lemma_reports_follow_paths(
    html: Seq<char>,
    csv: Seq<char>,
    history: Seq<FrameView>,
    registry: RegistryView,
    per_second: u64,
)
    ensures
        ({
            let files = reports(html, csv, history, registry, per_second);
            &&& files.len() == (if html.len() > 0 {
                1int
            } else {
                0int
            }) + (if csv.len() > 0 {
                1int
            } else {
                0int
            })
            &&& html.len() > 0 ==> files[0].path == html
            &&& csv.len() > 0 ==> files.last().path == csv
            &&& forall|i: int| 0 <= i < files.len() ==> (#[trigger] files[i]).bytes.len() > 0
        }),
{
    lemma_reports_are_not_empty(history, registry, per_second);
}

/// An immediate dump hands out, after the files of the flip, the files that
/// were asked for, and the flip is made in any case.
pub proof fn lemma_immediate_dump(e: EngineView, html: Seq<char>, csv: Seq<char>, now: u64)
    requires
        e.alive,
    ensures
        ({
            let asked = reports(
                html,
                csv,
                e.flip_requested(now).history,
                e.registry,
                e.config.ticks_per_second,
            );
            &&& e.immediate_reports(html, csv, now) == e.flip_request_reports(now) + asked
            &&& e.flip_requested(now).history.last() == e.closing_frame(now)
            &&& e.flip_requested(now).frame_index == crate::engine::bump(e.frame_index)
        }),
{
}

/// Auto-flip termination. Once automatic flips are called off, the timer's
/// signal, whenever it comes, leaves the engine exactly as it is and hands
/// out no file.
pub proof fn lemma_no_flip_after_stop(e: EngineView, now: u64)
    ensures
        e.auto_flip_stopped().timer_fired(now) == e.auto_flip_stopped(),
        e.auto_flip_stopped().timer_reports(now).len() == 0,
        e.auto_flip_stopped().history == e.history,
{
}

/// Frames come from flips alone. No call but a flip, an immediate dump, the
/// timer's signal and shutdown changes the frames that are kept or the
/// number of flips, and none of these others turns automatic flips on but
/// `start_auto_flip`.
pub proof fn lemma_frames_come_from_flips(
    e: EngineView,
    id: u64,
    token: u64,
    now: u64,
    text: Seq<char>,
    other: Seq<char>,
    color: u32,
    on: bool,
    spike: Seconds,
)
    ensures
        ({
            let same = |after: EngineView|
                after.history == e.history && after.frame_index == e.frame_index
                    && after.scheduler == e.scheduler;
            &&& same(e.entered(id, token, now))
            &&& same(e.left(id, now))
            &&& same(e.token_requested(text, other, color).0)
            &&& same(e.groups_switched(on))
            &&& same(e.thread_created(id, text))
            &&& same(e.thread_exited(id))
            &&& same(e.dump_requested(text, other, spike))
            &&& same(e.observe(now))
            &&& same(e.usage_error())
            &&& same(e.resource_error())
        }),
{
}

} // verus!
