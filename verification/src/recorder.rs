//! The recorder of one thread: the stack of its open scopes and the events
//! it has logged since the last flip.

use crate::frame::{ThreadFrame, ThreadFrameView};
use crate::tree::{build_call_tree, call_tree, EventKind, ScopeEvent};
use crate::tree_laws::in_order;
use std::collections::VecDeque;
use vstd::prelude::*;

verus! {

/// A scope that has been entered and not yet left.
#[derive(Clone, Copy, Debug, PartialEq, Eq, Structural)]
pub struct OpenScope {
    pub token: u64,
    /// The tick at which the scope was entered.
    pub entered: u64,
    /// Whether the enter was logged. The leave is logged only if it was,
    /// and only while the groups are switched on.
    pub recorded: bool,
}

/// The state of one thread.
pub struct ThreadContext {
    id: u64,
    name: String,
    exited: bool,
    stack: Vec<OpenScope>,
    events: VecDeque<ScopeEvent>,
    dropped: u64,
}

/// A thread's state as a mathematical value.
pub struct ThreadView {
    pub id: u64,
    pub name: Seq<char>,
    /// The thread has ended; its events wait for the next flip.
    pub exited: bool,
    /// Open scopes, outermost first.
    pub stack: Seq<OpenScope>,
    /// Events logged since the last flip, oldest first.
    pub events: Seq<ScopeEvent>,
    /// Events lost since the last flip because the buffer was full.
    pub dropped: int,
}

/// One more, but never beyond the largest `u64`.
pub open spec fn count_up(n: int) -> int {
    if n < u64::MAX {
        n + 1
    } else {
        n
    }
}

impl ThreadView {
    /// The state of a thread that has recorded nothing.
    pub open spec fn fresh(id: u64, name: Seq<char>) -> ThreadView {
        ThreadView {
            id,
            name,
            exited: false,
            stack: Seq::empty(),
            events: Seq::empty(),
            dropped: 0,
        }
    }

    /// Whether a buffer that holds at most `capacity` events has no room for
    /// one more.
    pub open spec fn is_full(self, capacity: int) -> bool {
        capacity <= 0 || self.events.len() >= capacity
    }

    /// Whether an enter loses an event: it is logged, and the buffer is
    /// full.
    pub open spec fn enter_loses(self, records: bool, capacity: int) -> bool {
        records && self.is_full(capacity)
    }

    /// Whether a leave logs an event: it closes a scope whose enter was
    /// logged, and `records` says that the groups are switched on.
    pub open spec fn leave_logs(self, records: bool) -> bool {
        self.stack.len() > 0 && self.stack.last().recorded && records
    }

    /// Whether a leave loses an event: it logs one, and the buffer is full.
    pub open spec fn leave_loses(self, records: bool, capacity: int) -> bool {
        self.leave_logs(records) && self.is_full(capacity)
    }

    /// The state after logging `e` into a buffer that holds at most
    /// `capacity` events: a full buffer loses its oldest event to make room,
    /// and a buffer without room for any loses `e` itself.
    pub open spec fn log(self, e: ScopeEvent, capacity: int) -> ThreadView {
        if capacity <= 0 {
            ThreadView { dropped: count_up(self.dropped), ..self }
        } else if self.events.len() >= capacity {
            ThreadView {
                events: self.events.subrange(1, self.events.len() as int).push(e),
                dropped: count_up(self.dropped),
                ..self
            }
        } else {
            ThreadView { events: self.events.push(e), ..self }
        }
    }

    /// The state after entering a scope at `tick`, which lies `offset` ticks
    /// into the frame. The scope is put on the stack in any case; the event
    /// is logged only if `records` says so.
    pub open spec fn enter(
        self,
        token: u64,
        tick: u64,
        offset: u64,
        records: bool,
        capacity: int,
    ) -> ThreadView {
        let pushed = ThreadView {
            stack: self.stack.push(OpenScope { token, entered: tick, recorded: records }),
            ..self
        };
        if records {
            pushed.log(ScopeEvent { token, timestamp: offset, kind: EventKind::Enter }, capacity)
        } else {
            pushed
        }
    }

    /// The state after leaving the innermost open scope `offset` ticks into
    /// the frame. With no scope open nothing changes. The scope is taken
    /// off the stack in any case; the event is logged only if the enter was
    /// logged and `records` says that the groups are switched on.
    pub open spec fn leave(self, offset: u64, records: bool, capacity: int) -> ThreadView {
        if self.stack.len() == 0 {
            self
        } else {
            let top = self.stack.last();
            let popped = ThreadView { stack: self.stack.drop_last(), ..self };
            if top.recorded && records {
                popped.log(
                    ScopeEvent { token: top.token, timestamp: offset, kind: EventKind::Leave },
                    capacity,
                )
            } else {
                popped
            }
        }
    }

    /// What this thread contributes to a frame that closes `end` ticks after
    /// it opened.
    pub open spec fn frame(self, end: u64) -> ThreadFrameView {
        ThreadFrameView {
            thread: self.id,
            name: self.name,
            tree: call_tree(self.events, end),
            events: self.events.len() as int,
            dropped: self.dropped,
        }
    }

    /// The state after a flip: the buffer is empty again, the open scopes
    /// stay open.
    pub open spec fn after_flip(self) -> ThreadView {
        ThreadView { events: Seq::empty(), dropped: 0, ..self }
    }

    /// What holds of the buffer of every thread: the counter of lost events
    /// is in range, and the buffer holds no more events than it has room
    /// for, in the order of their timestamps, and none from beyond the
    /// `elapsed` ticks that the frame has run.
    pub open spec fn buffer_ok(self, capacity: int, elapsed: int) -> bool {
        &&& 0 <= self.dropped <= u64::MAX
        &&& self.events.len() <= capacity
        &&& in_order(self.events, elapsed)
    }
}

impl View for ThreadContext {
    type V = ThreadView;

    closed spec fn view(&self) -> ThreadView {
        ThreadView {
            id: self.id,
            name: self.name@,
            exited: self.exited,
            stack: self.stack@,
            events: self.events@,
            dropped: self.dropped as int,
        }
    }
}

impl ThreadContext {
    /// The context of a thread that has recorded nothing yet.
    pub fn new(id: u64, name: String) -> (t: ThreadContext)
        ensures
            t@ == ThreadView::fresh(id, name@),
    {
        ThreadContext {
            id,
            name,
            exited: false,
            stack: Vec::new(),
            events: VecDeque::new(),
            dropped: 0,
        }
    }

    /// The thread's identifier.
    pub fn id(&self) -> (id: u64)
        ensures
            id == self@.id,
    {
        self.id
    }

    /// Whether the thread has ended.
    pub fn is_exited(&self) -> (b: bool)
        ensures
            b == self@.exited,
    {
        self.exited
    }

    /// The number of open scopes.
    pub fn depth(&self) -> (d: usize)
        ensures
            d == self@.stack.len(),
    {
        self.stack.len()
    }

    /// Marks the thread as ended.
    pub fn mark_exited(&mut self)
        ensures
            final(self)@ == (ThreadView { exited: true, ..old(self)@ }),
    {
        self.exited = true;
    }

    /// Logs `e` into the buffer of at most `capacity` events, and returns
    /// whether an event was lost.
    fn log(&mut self, e: ScopeEvent, capacity: usize) -> (lost: bool)
        ensures
            final(self)@ == old(self)@.log(e, capacity as int),
            lost == old(self)@.is_full(capacity as int),
    {
        if capacity == 0 {
            self.dropped = self.dropped.saturating_add(1);
            true
        } else if self.events.len() >= capacity {
            let _ = self.events.pop_front();
            self.events.push_back(e);
            self.dropped = self.dropped.saturating_add(1);
            true
        } else {
            self.events.push_back(e);
            false
        }
    }

    /// Enters a scope at `tick`, `offset` ticks into the frame: puts it on
    /// the stack and, if `records` is set, logs the event into the buffer of
    /// at most `capacity` events. Returns whether an event was lost.
    pub fn enter(
        &mut self,
        token: u64,
        tick: u64,
        offset: u64,
        records: bool,
        capacity: usize,
    ) -> (lost: bool)
        ensures
            final(self)@ == old(self)@.enter(token, tick, offset, records, capacity as int),
            lost == old(self)@.enter_loses(records, capacity as int),
    {
        self.stack.push(OpenScope { token, entered: tick, recorded: records });
        if records {
            self.log(ScopeEvent { token, timestamp: offset, kind: EventKind::Enter }, capacity)
        } else {
            false
        }
    }

    /// Leaves the innermost open scope `offset` ticks into the frame, and
    /// logs the event if the enter was logged and `records` is set. Returns
    /// `None`, and changes nothing, when no scope is open, and otherwise
    /// whether an event was lost.
    pub fn leave(&mut self, offset: u64, records: bool, capacity: usize) -> (lost: Option<bool>)
        ensures
            final(self)@ == old(self)@.leave(offset, records, capacity as int),
            lost == (if old(self)@.stack.len() > 0 {
                Some(old(self)@.leave_loses(records, capacity as int))
            } else {
                None
            }),
    {
        match self.stack.pop() {
            None => None,
            Some(top) => {
                assert(self.stack@ =~= old(self).stack@.drop_last());
                if top.recorded && records {
                    Some(
                        self.log(
                            ScopeEvent {
                                token: top.token,
                                timestamp: offset,
                                kind: EventKind::Leave,
                            },
                            capacity,
                        ),
                    )
                } else {
                    Some(false)
                }
            },
        }
    }

    /// Closes the thread's part of a frame `end` ticks after it opened:
    /// builds the call tree from the buffer and empties the buffer.
    pub fn close_frame(&mut self, end: u64) -> (frame: ThreadFrame)
        ensures
            frame@ == old(self)@.frame(end),
            final(self)@ == old(self)@.after_flip(),
    {
        let mut events: Vec<ScopeEvent> = Vec::new();
        while self.events.len() > 0
            invariant
                events@ + self.events@ == old(self).events@,
                self.id == old(self).id,
                self.name == old(self).name,
                self.exited == old(self).exited,
                self.stack == old(self).stack,
                self.dropped == old(self).dropped,
            decreases self.events.len(),
        {
            let ghost rest = self.events@;
            match self.events.pop_front() {
                Some(e) => {
                    events.push(e);
                    assert(events@ + self.events@ =~= old(self).events@) by {
                        assert(rest =~= seq![e] + self.events@);
                    }
                },
                None => {},
            }
        }
        assert(events@ =~= old(self).events@);
        let tree = build_call_tree(&events, end);
        let frame = ThreadFrame {
            thread: self.id,
            name: self.name.clone(),
            nodes: tree.nodes,
            unmatched_leaves: tree.unmatched_leaves,
            event_count: events.len(),
            dropped_events: self.dropped,
        };
        self.dropped = 0;
        assert(self.events@ =~= Seq::empty());
        frame
    }
}

/// Bounded memory and timestamp order. An enter at `offset` keeps a buffer
/// that was in order up to there within its capacity and in order.
pub proof fn lemma_enter_keeps_buffer(
    t: ThreadView,
    token: u64,
    tick: u64,
    offset: u64,
    records: bool,
    capacity: int,
)
    requires
        t.buffer_ok(capacity, offset as int),
    ensures
        t.enter(token, tick, offset, records, capacity).buffer_ok(capacity, offset as int),
{
    let pushed = ThreadView {
        stack: t.stack.push(OpenScope { token, entered: tick, recorded: records }),
        ..t
    };
    lemma_log_in_order(
        pushed,
        ScopeEvent { token, timestamp: offset, kind: EventKind::Enter },
        capacity,
    );
}

/// Bounded memory and timestamp order. A leave at `offset` keeps a buffer
/// that was in order up to there within its capacity and in order.
pub proof fn lemma_leave_keeps_buffer(t: ThreadView, offset: u64, records: bool, capacity: int)
    requires
        t.buffer_ok(capacity, offset as int),
    ensures
        t.leave(offset, records, capacity).buffer_ok(capacity, offset as int),
        !records ==> t.leave(offset, records, capacity).events == t.events && t.leave(
            offset,
            records,
            capacity,
        ).dropped == t.dropped,
{
    if t.stack.len() > 0 {
        let popped = ThreadView { stack: t.stack.drop_last(), ..t };
        lemma_log_in_order(
            popped,
            ScopeEvent { token: t.stack.last().token, timestamp: offset, kind: EventKind::Leave },
            capacity,
        );
    }
}

/// Logging an event that is no earlier than those in the buffer keeps the
/// buffer in order.
proof fn lemma_log_in_order(t: ThreadView, e: ScopeEvent, capacity: int)
    requires
        in_order(t.events, e.timestamp as int),
    ensures
        in_order(t.log(e, capacity).events, e.timestamp as int),
{
    let before = t.events;
    let after = t.log(e, capacity).events;
    let n = before.len() as int;
    if capacity <= 0 {
    } else if n >= capacity {
        assert forall|i: int| 0 <= i < after.len() implies (#[trigger] after[i]).timestamp
            <= e.timestamp by {
            if i < n - 1 {
                assert(after[i] == before[i + 1]);
            }
        }
        assert forall|i: int, j: int| 0 <= i <= j < after.len() implies (
        #[trigger] after[i]).timestamp <= (#[trigger] after[j]).timestamp by {
            if j < n - 1 {
                assert(after[i] == before[i + 1]);
                assert(after[j] == before[j + 1]);
            } else if i < n - 1 {
                assert(after[i] == before[i + 1]);
            }
        }
    } else {
        assert forall|i: int| 0 <= i < after.len() implies (#[trigger] after[i]).timestamp
            <= e.timestamp by {
            if i < n {
                assert(after[i] == before[i]);
            }
        }
        assert forall|i: int, j: int| 0 <= i <= j < after.len() implies (
        #[trigger] after[i]).timestamp <= (#[trigger] after[j]).timestamp by {
            if j < n {
                assert(after[i] == before[i]);
                assert(after[j] == before[j]);
            } else if i < n {
                assert(after[i] == before[i]);
            }
        }
    }
}

} // verus!
