//! The call tree of one thread in one frame, rebuilt from its events.
//!
//! The mathematical definition is [`call_tree`]: a replay of the events, one
//! after the other, over a state of nodes and open calls. [`build_call_tree`]
//! computes exactly that. What the definition implies (depths, the accounting
//! of inclusive and exclusive time) is proved in `tree_laws`.

use vstd::prelude::*;

verus! {

/// Whether an event opens or closes a scope.
#[derive(Clone, Copy, Debug, PartialEq, Eq, Structural)]
pub enum EventKind {
    Enter,
    Leave,
}

/// One recorded event. The timestamp counts ticks since the frame opened.
#[derive(Clone, Copy, Debug, PartialEq, Eq, Structural)]
pub struct ScopeEvent {
    pub token: u64,
    pub timestamp: u64,
    pub kind: EventKind,
}

/// One node of a call tree: all calls of one token below one parent node.
/// Nodes live in a vector in the order in which they were first entered, so a
/// parent always stands before its children.
#[derive(Clone, Copy, Debug, PartialEq, Eq)]
pub struct Node {
    pub token: u64,
    /// Index of the parent node, `None` for a root.
    pub parent: Option<usize>,
    /// Number of ancestors.
    pub depth: usize,
    pub call_count: u64,
    /// Ticks between enter and leave, summed over the calls.
    pub inclusive: u64,
    /// Ticks spent in the calls themselves, outside any call they made.
    pub exclusive: u64,
    /// The longest single call.
    pub max_single: u64,
    /// Whether a call was still open when the frame closed.
    pub spanning: bool,
}

/// A node as a mathematical value; a root has parent `-1`.
pub struct NodeView {
    pub token: u64,
    pub parent: int,
    pub depth: int,
    pub calls: int,
    pub inclusive: int,
    pub exclusive: int,
    pub max_single: int,
    pub spanning: bool,
}

impl View for Node {
    type V = NodeView;

    open spec fn view(&self) -> NodeView {
        NodeView {
            token: self.token,
            parent: match self.parent {
                Some(p) => p as int,
                None => -1,
            },
            depth: self.depth as int,
            calls: self.call_count as int,
            inclusive: self.inclusive as int,
            exclusive: self.exclusive as int,
            max_single: self.max_single as int,
            spanning: self.spanning,
        }
    }
}

/// The views of a sequence of nodes.
pub open spec fn node_views(nodes: Seq<Node>) -> Seq<NodeView> {
    Seq::new(nodes.len(), |i: int| nodes[i]@)
}

/// A call that has been entered and not yet left.
pub struct OpenCall {
    pub node: int,
    pub start: int,
}

/// The state of a replay: the nodes so far, the calls that are open
/// (outermost first), the time reached, and the number of leaves that found
/// no open call.
pub struct Replay {
    pub nodes: Seq<NodeView>,
    pub open: Seq<OpenCall>,
    pub now: int,
    pub unmatched: int,
}

/// The finished tree of a frame.
pub struct TreeView {
    pub nodes: Seq<NodeView>,
    pub unmatched: int,
}

/// The state before any event.
pub open spec fn start_replay() -> Replay {
    Replay { nodes: Seq::empty(), open: Seq::empty(), now: 0, unmatched: 0 }
}

/// The least index from `from` on of a node with this parent and token, or
/// `-1` if there is none.
pub open spec fn first_match(nodes: Seq<NodeView>, parent: int, token: u64, from: int) -> int
    decreases nodes.len() - from,
{
    if from < 0 || from >= nodes.len() {
        -1
    } else if nodes[from].parent == parent && nodes[from].token == token {
        from
    } else {
        first_match(nodes, parent, token, from + 1)
    }
}

/// The node of the innermost open call, `-1` when none is open.
pub open spec fn current_node(s: Replay) -> int {
    if s.open.len() == 0 {
        -1
    } else {
        s.open.last().node
    }
}

/// Moves time forward to `t` and charges the ticks that passed to the
/// innermost open call as exclusive time. A `t` that lies in the past leaves
/// the time where it is.
pub open spec fn advance(s: Replay, t: int) -> Replay {
    let t2 = if t > s.now {
        t
    } else {
        s.now
    };
    if s.open.len() == 0 {
        Replay { now: t2, ..s }
    } else {
        let i = s.open.last().node;
        let n = s.nodes[i];
        Replay {
            nodes: s.nodes.update(i, NodeView { exclusive: n.exclusive + (t2 - s.now), ..n }),
            now: t2,
            ..s
        }
    }
}

/// Opens a call of `token` below the innermost open call, in the node that
/// already stands for this token there, or in a new node.
pub open spec fn enter_call(s: Replay, token: u64) -> Replay {
    let parent = current_node(s);
    let found = first_match(s.nodes, parent, token, 0);
    if found >= 0 {
        let n = s.nodes[found];
        Replay {
            nodes: s.nodes.update(found, NodeView { calls: n.calls + 1, ..n }),
            open: s.open.push(OpenCall { node: found, start: s.now }),
            ..s
        }
    } else {
        let n = NodeView {
            token,
            parent,
            depth: s.open.len() as int,
            calls: 1,
            inclusive: 0,
            exclusive: 0,
            max_single: 0,
            spanning: false,
        };
        Replay {
            nodes: s.nodes.push(n),
            open: s.open.push(OpenCall { node: s.nodes.len() as int, start: s.now }),
            ..s
        }
    }
}

/// Closes the innermost open call at the time reached. With no call open, a
/// recorded leave is counted as unmatched and changes nothing else. `at_end`
/// says that the frame closes the call, not a recorded leave.
pub open spec fn leave_call(s: Replay, at_end: bool) -> Replay {
    if s.open.len() == 0 {
        if at_end {
            s
        } else {
            Replay { unmatched: s.unmatched + 1, ..s }
        }
    } else {
        let c = s.open.last();
        let n = s.nodes[c.node];
        let d = s.now - c.start;
        Replay {
            nodes: s.nodes.update(
                c.node,
                NodeView {
                    inclusive: n.inclusive + d,
                    max_single: if d > n.max_single {
                        d
                    } else {
                        n.max_single
                    },
                    spanning: n.spanning || at_end,
                    ..n
                },
            ),
            open: s.open.drop_last(),
            ..s
        }
    }
}

/// One event: time moves to its timestamp, then the call opens or closes.
pub open spec fn step(s: Replay, e: ScopeEvent) -> Replay {
    let s1 = advance(s, e.timestamp as int);
    match e.kind {
        EventKind::Enter => enter_call(s1, e.token),
        EventKind::Leave => leave_call(s1, false),
    }
}

/// The state after all of `events`, in order.
pub open spec fn replay_events(events: Seq<ScopeEvent>) -> Replay
    decreases events.len(),
{
    if events.len() == 0 {
        start_replay()
    } else {
        step(replay_events(events.drop_last()), events.last())
    }
}

/// Closes every call that is still open, innermost first.
pub open spec fn close_all(s: Replay) -> Replay
    decreases s.open.len(),
{
    if s.open.len() == 0 {
        s
    } else {
        close_all(leave_call(s, true))
    }
}

/// The state when the frame closes at `end`: all events replayed, time moved
/// to `end`, and the calls still open closed there.
pub open spec fn closed_replay(events: Seq<ScopeEvent>, end: u64) -> Replay {
    close_all(advance(replay_events(events), end as int))
}

/// The call tree of a frame that holds `events` and closes at `end`.
pub open spec fn call_tree(events: Seq<ScopeEvent>, end: u64) -> TreeView {
    let s = closed_replay(events, end);
    TreeView { nodes: s.nodes, unmatched: s.unmatched }
}

/// Whether a call of node `i` is open.
pub open spec fn is_open(s: Replay, i: int) -> bool {
    let d = s.nodes[i].depth;
    0 <= d < s.open.len() && s.open[d].node == i
}

/// What holds of every node during a replay.
pub open spec fn node_wf(s: Replay, i: int) -> bool {
    let n = s.nodes[i];
    &&& -1 <= n.parent < i
    &&& n.depth == (if n.parent < 0 {
        0
    } else {
        s.nodes[n.parent].depth + 1
    })
    &&& n.calls >= 1
    &&& 0 <= n.max_single <= n.inclusive
    &&& 0 <= n.exclusive <= s.now
    &&& n.inclusive <= (if is_open(s, i) {
        s.open[n.depth].start
    } else {
        s.now
    })
}

/// What holds of every open call during a replay: it is a call of a child of
/// the call outside it, and it started no earlier.
pub open spec fn open_wf(s: Replay, k: int) -> bool {
    let c = s.open[k];
    &&& 0 <= c.node < s.nodes.len()
    &&& s.nodes[c.node].depth == k
    &&& s.nodes[c.node].parent == (if k == 0 {
        -1
    } else {
        s.open[k - 1].node
    })
    &&& (if k == 0 {
        0
    } else {
        s.open[k - 1].start
    }) <= c.start <= s.now
}

/// The invariant of a replay.
pub open spec fn replay_wf(s: Replay) -> bool {
    &&& s.now >= 0
    &&& s.unmatched >= 0
    &&& forall|i: int| 0 <= i < s.nodes.len() ==> #[trigger] node_wf(s, i)
    &&& forall|k: int| 0 <= k < s.open.len() ==> #[trigger] open_wf(s, k)
}

/// Every count in `s` is at most `n`, and the time reached at most `limit`.
pub open spec fn replay_within(s: Replay, n: int, limit: int) -> bool {
    &&& s.nodes.len() <= n
    &&& s.open.len() <= n
    &&& s.unmatched <= n
    &&& s.now <= limit
    &&& forall|i: int| 0 <= i < s.nodes.len() ==> (#[trigger] s.nodes[i]).calls <= n
}

/// What `first_match` returns is a match at or after `from`, and nothing
/// before it matches.
pub proof fn lemma_first_match(nodes: Seq<NodeView>, parent: int, token: u64, from: int)
    requires
        0 <= from,
    ensures
        ({
            let r = first_match(nodes, parent, token, from);
            &&& r == -1 || (from <= r < nodes.len() && nodes[r].parent == parent && nodes[r].token
                == token)
            &&& forall|j: int|
                from <= j < nodes.len() && (r == -1 || j < r) ==> !(nodes[j].parent == parent
                    && nodes[j].token == token)
        }),
    decreases nodes.len() - from,
{
    if from < nodes.len() && !(nodes[from].parent == parent && nodes[from].token == token) {
        lemma_first_match(nodes, parent, token, from + 1);
    }
}

/// Moving time forward keeps the invariant.
pub proof fn lemma_advance_wf(s: Replay, t: int)
    requires
        replay_wf(s),
    ensures
        replay_wf(advance(s, t)),
        advance(s, t).now == (if t > s.now {
            t
        } else {
            s.now
        }),
        advance(s, t).open == s.open,
        advance(s, t).nodes.len() == s.nodes.len(),
        advance(s, t).unmatched == s.unmatched,
{
    let s2 = advance(s, t);
    if s.open.len() > 0 {
        assert(open_wf(s, s.open.len() - 1));
        assert(node_wf(s, s.open.last().node));
    }
    assert forall|k: int| 0 <= k < s2.open.len() implies #[trigger] open_wf(s2, k) by {
        assert(open_wf(s, k));
    }
    assert forall|i: int| 0 <= i < s2.nodes.len() implies #[trigger] node_wf(s2, i) by {
        assert(node_wf(s, i));
        if 0 <= s.nodes[i].depth < s.open.len() {
            assert(open_wf(s, s.nodes[i].depth));
        }
    }
}

/// Opening a call keeps the invariant.
pub proof fn lemma_enter_wf(s: Replay, token: u64)
    requires
        replay_wf(s),
    ensures
        replay_wf(enter_call(s, token)),
        enter_call(s, token).now == s.now,
        enter_call(s, token).open.len() == s.open.len() + 1,
        enter_call(s, token).unmatched == s.unmatched,
{
    let s2 = enter_call(s, token);
    let parent = current_node(s);
    let len = s.open.len() as int;
    lemma_first_match(s.nodes, parent, token, 0);
    let found = first_match(s.nodes, parent, token, 0);
    if len > 0 {
        assert(open_wf(s, len - 1));
    }
    let c = s2.open[len].node;
    if found >= 0 {
        assert(node_wf(s, found));
    }
    assert(s2.nodes[c].depth == len);
    assert forall|k: int| 0 <= k < s2.open.len() implies #[trigger] open_wf(s2, k) by {
        if k < len {
            assert(open_wf(s, k));
        }
    }
    assert forall|i: int| 0 <= i < s2.nodes.len() implies #[trigger] node_wf(s2, i) by {
        if i < s.nodes.len() {
            assert(node_wf(s, i));
            if 0 <= s.nodes[i].depth < len {
                assert(open_wf(s, s.nodes[i].depth));
            }
        }
    }
}

/// Closing a call keeps the invariant.
pub proof fn lemma_leave_wf(s: Replay, at_end: bool)
    requires
        replay_wf(s),
    ensures
        replay_wf(leave_call(s, at_end)),
        leave_call(s, at_end).now == s.now,
        leave_call(s, at_end).nodes.len() == s.nodes.len(),
{
    let s2 = leave_call(s, at_end);
    let len = s.open.len() as int;
    if len > 0 {
        let c = s.open[len - 1];
        assert(open_wf(s, len - 1));
        assert(node_wf(s, c.node));
        assert(is_open(s, c.node));
        assert forall|k: int| 0 <= k < s2.open.len() implies #[trigger] open_wf(s2, k) by {
            assert(open_wf(s, k));
        }
        assert forall|i: int| 0 <= i < s2.nodes.len() implies #[trigger] node_wf(s2, i) by {
            assert(node_wf(s, i));
            if 0 <= s.nodes[i].depth < len {
                assert(open_wf(s, s.nodes[i].depth));
            }
        }
    } else {
        assert forall|i: int| 0 <= i < s2.nodes.len() implies #[trigger] node_wf(s2, i) by {
            assert(node_wf(s, i));
        }
    }
}

/// One event keeps the invariant.
pub proof fn lemma_step_wf(s: Replay, e: ScopeEvent)
    requires
        replay_wf(s),
    ensures
        replay_wf(step(s, e)),
{
    lemma_advance_wf(s, e.timestamp as int);
    let s1 = advance(s, e.timestamp as int);
    match e.kind {
        EventKind::Enter => lemma_enter_wf(s1, e.token),
        EventKind::Leave => lemma_leave_wf(s1, false),
    }
}

/// The invariant holds after any sequence of events.
pub proof fn lemma_replay_wf(events: Seq<ScopeEvent>)
    ensures
        replay_wf(replay_events(events)),
    decreases events.len(),
{
    if events.len() > 0 {
        lemma_replay_wf(events.drop_last());
        lemma_step_wf(replay_events(events.drop_last()), events.last());
    }
}

/// Closing the open calls keeps the invariant and leaves none open.
pub proof fn lemma_close_all_wf(s: Replay)
    requires
        replay_wf(s),
    ensures
        replay_wf(close_all(s)),
        close_all(s).open.len() == 0,
        close_all(s).now == s.now,
        close_all(s).nodes.len() == s.nodes.len(),
        close_all(s).unmatched == s.unmatched,
    decreases s.open.len(),
{
    if s.open.len() > 0 {
        lemma_leave_wf(s, true);
        lemma_close_all_wf(leave_call(s, true));
    }
}

/// The invariant holds of the state from which the tree of a frame is taken.
pub proof fn lemma_closed_replay_wf(events: Seq<ScopeEvent>, end: u64)
    ensures
        replay_wf(closed_replay(events, end)),
        closed_replay(events, end).open.len() == 0,
{
    lemma_replay_wf(events);
    lemma_advance_wf(replay_events(events), end as int);
    lemma_close_all_wf(advance(replay_events(events), end as int));
}

/// A call tree as built: the nodes in first-seen order, and how many leaves
/// found no open call.
#[derive(Debug)]
pub struct CallTree {
    pub nodes: Vec<Node>,
    pub unmatched_leaves: usize,
}

impl View for CallTree {
    type V = TreeView;

    open spec fn view(&self) -> TreeView {
        TreeView { nodes: node_views(self.nodes@), unmatched: self.unmatched_leaves as int }
    }
}

/// An open call while a tree is built: its node and when it started.
struct OpenEntry {
    node: usize,
    start: u64,
}

/// A replay in progress.
struct Builder {
    nodes: Vec<Node>,
    open: Vec<OpenEntry>,
    now: u64,
    unmatched: usize,
}

impl Builder {
    /// The state of the replay as a mathematical value.
    spec fn replay(&self) -> Replay {
        Replay {
            nodes: node_views(self.nodes@),
            open: Seq::new(
                self.open@.len(),
                |k: int|
                    OpenCall { node: self.open@[k].node as int, start: self.open@[k].start as int },
            ),
            now: self.now as int,
            unmatched: self.unmatched as int,
        }
    }

    /// A replay before any event.
    fn new() -> (b: Builder)
        ensures
            b.replay() == start_replay(),
    {
        let b = Builder { nodes: Vec::new(), open: Vec::new(), now: 0, unmatched: 0 };
        assert(b.replay().nodes =~= start_replay().nodes);
        assert(b.replay().open =~= start_replay().open);
        b
    }

    /// Moves time forward to `t`.
    fn advance(&mut self, t: u64)
        requires
            replay_wf(old(self).replay()),
        ensures
            final(self).replay() == advance(old(self).replay(), t as int),
    {
        let ghost s = self.replay();
        let t2: u64 = if t > self.now {
            t
        } else {
            self.now
        };
        let depth: usize = self.open.len();
        if depth > 0 {
            let i: usize = self.open[depth - 1].node;
            proof {
                assert(open_wf(s, depth - 1));
                assert(node_wf(s, i as int));
            }
            let mut n: Node = self.nodes[i];
            n.exclusive = n.exclusive + (t2 - self.now);
            self.nodes.set(i, n);
        }
        self.now = t2;
        assert(self.replay().nodes =~= advance(s, t as int).nodes);
        assert(self.replay().open =~= advance(s, t as int).open);
    }

    /// The node of `token` below `parent`, if there is one.
    fn find(&self, parent: Option<usize>, token: u64) -> (r: Option<usize>)
        ensures
            ({
                let p = match parent {
                    Some(p) => p as int,
                    None => -1,
                };
                let m = first_match(self.replay().nodes, p, token, 0);
                match r {
                    Some(i) => m == i,
                    None => m == -1,
                }
            }),
    {
        let ghost p: int = match parent {
            Some(p) => p as int,
            None => -1,
        };
        let ghost views = self.replay().nodes;
        let mut i: usize = 0;
        while i < self.nodes.len()
            invariant
                i <= self.nodes.len(),
                views == node_views(self.nodes@),
                first_match(views, p, token, 0) == first_match(views, p, token, i as int),
                p == (match parent {
                    Some(p) => p as int,
                    None => -1,
                }),
            decreases self.nodes.len() - i,
        {
            let n: Node = self.nodes[i];
            let same_parent: bool = match (n.parent, parent) {
                (Some(a), Some(b)) => a == b,
                (None, None) => true,
                _ => false,
            };
            if same_parent && n.token == token {
                return Some(i);
            }
            i = i + 1;
        }
        None
    }

    /// Opens a call of `token`. `n` bounds the counts so far.
    fn enter(&mut self, token: u64, Ghost(n): Ghost<int>)
        requires
            replay_wf(old(self).replay()),
            replay_within(old(self).replay(), n, u64::MAX as int),
            n < usize::MAX,
        ensures
            final(self).replay() == enter_call(old(self).replay(), token),
    {
        let ghost s = self.replay();
        let depth: usize = self.open.len();
        let parent: Option<usize> = if depth == 0 {
            None
        } else {
            Some(self.open[depth - 1].node)
        };
        let found = self.find(parent, token);
        let node: usize = match found {
            Some(i) => {
                proof {
                    lemma_first_match(s.nodes, current_node(s), token, 0);
                    assert(s.nodes[i as int].calls <= n);
                }
                let mut m: Node = self.nodes[i];
                m.call_count = m.call_count + 1;
                self.nodes.set(i, m);
                i
            },
            None => {
                let i: usize = self.nodes.len();
                self.nodes.push(
                    Node {
                        token,
                        parent,
                        depth,
                        call_count: 1,
                        inclusive: 0,
                        exclusive: 0,
                        max_single: 0,
                        spanning: false,
                    },
                );
                i
            },
        };
        self.open.push(OpenEntry { node, start: self.now });
        assert(self.replay().nodes =~= enter_call(s, token).nodes);
        assert(self.replay().open =~= enter_call(s, token).open);
    }

    /// Closes the innermost open call. `n` bounds the counts so far.
    fn leave(&mut self, at_end: bool, Ghost(n): Ghost<int>)
        requires
            replay_wf(old(self).replay()),
            replay_within(old(self).replay(), n, u64::MAX as int),
            at_end || n < usize::MAX,
        ensures
            final(self).replay() == leave_call(old(self).replay(), at_end),
    {
        let ghost s = self.replay();
        match self.open.pop() {
            None => {
                if !at_end {
                    self.unmatched = self.unmatched + 1;
                }
            },
            Some(c) => {
                proof {
                    let k = s.open.len() - 1;
                    assert(open_wf(s, k));
                    assert(node_wf(s, c.node as int));
                    assert(is_open(s, c.node as int));
                }
                let d: u64 = self.now - c.start;
                let mut m: Node = self.nodes[c.node];
                m.inclusive = m.inclusive + d;
                if d > m.max_single {
                    m.max_single = d;
                }
                m.spanning = m.spanning || at_end;
                self.nodes.set(c.node, m);
            },
        }
        assert(self.replay().nodes =~= leave_call(s, at_end).nodes);
        assert(self.replay().open =~= leave_call(s, at_end).open);
    }
}

/// Moving time forward adds to no count.
proof fn lemma_advance_within(s: Replay, t: int, n: int, limit: int)
    requires
        replay_wf(s),
        replay_within(s, n, limit),
        t <= limit,
    ensures
        replay_within(advance(s, t), n, limit),
{
    let s1 = advance(s, t);
    lemma_advance_wf(s, t);
    if s.open.len() > 0 {
        assert(open_wf(s, s.open.len() - 1));
    }
    assert forall|i: int| 0 <= i < s1.nodes.len() implies (#[trigger] s1.nodes[i]).calls <= n by {
        assert(s.nodes[i].calls <= n);
    }
}

/// One event adds at most one to each count.
proof fn lemma_step_within(s: Replay, e: ScopeEvent, n: int, limit: int)
    requires
        replay_wf(s),
        replay_within(s, n, limit),
        e.timestamp <= limit,
    ensures
        replay_within(step(s, e), n + 1, limit),
{
    let s1 = advance(s, e.timestamp as int);
    lemma_advance_wf(s, e.timestamp as int);
    lemma_advance_within(s, e.timestamp as int, n, limit);
    let s2 = step(s, e);
    match e.kind {
        EventKind::Enter => {
            lemma_enter_wf(s1, e.token);
            lemma_first_match(s1.nodes, current_node(s1), e.token, 0);
            assert forall|i: int| 0 <= i < s2.nodes.len() implies (#[trigger] s2.nodes[i]).calls
                <= n + 1 by {
                if i < s1.nodes.len() {
                    assert(s1.nodes[i].calls <= n);
                }
            }
        },
        EventKind::Leave => {
            lemma_leave_wf(s1, false);
            if s1.open.len() > 0 {
                assert(open_wf(s1, s1.open.len() - 1));
            }
            assert forall|i: int| 0 <= i < s2.nodes.len() implies (#[trigger] s2.nodes[i]).calls
                <= n + 1 by {
                assert(s1.nodes[i].calls <= n);
            }
        },
    }
}

/// Closing a call adds to no count.
proof fn lemma_leave_at_end_within(s: Replay, n: int, limit: int)
    requires
        replay_wf(s),
        replay_within(s, n, limit),
    ensures
        replay_within(leave_call(s, true), n, limit),
{
    let s2 = leave_call(s, true);
    lemma_leave_wf(s, true);
    if s.open.len() > 0 {
        assert(open_wf(s, s.open.len() - 1));
    }
    assert forall|i: int| 0 <= i < s2.nodes.len() implies (#[trigger] s2.nodes[i]).calls <= n by {
        assert(s.nodes[i].calls <= n);
    }
}

/// Rebuilds the call tree of one thread from the events it recorded in a
/// frame, in the order recorded, and the tick count `end` at which the frame
/// closes. Each leave closes the innermost open call; a leave that finds none
/// is counted and otherwise ignored; calls still open at the end are closed at
/// `end` and marked as spanning. A timestamp that lies before the one ahead of
/// it counts as equal to it.
pub fn build_call_tree(events: &Vec<ScopeEvent>, end: u64) -> (tree: CallTree)
    ensures
        tree@ == call_tree(events@, end),
{
    let mut b = Builder::new();
    let mut i: usize = 0;
    while i < events.len()
        invariant
            i <= events.len(),
            b.replay() == replay_events(events@.take(i as int)),
            replay_wf(b.replay()),
            replay_within(b.replay(), i as int, u64::MAX as int),
        decreases events.len() - i,
    {
        let e: ScopeEvent = events[i];
        let ghost s = b.replay();
        proof {
            assert(events@.take(i + 1).drop_last() =~= events@.take(i as int));
            assert(events@.take(i + 1).last() == e);
            lemma_step_wf(s, e);
            lemma_step_within(s, e, i as int, u64::MAX as int);
            lemma_advance_wf(s, e.timestamp as int);
            lemma_advance_within(s, e.timestamp as int, i as int, u64::MAX as int);
        }
        b.advance(e.timestamp);
        match e.kind {
            EventKind::Enter => b.enter(e.token, Ghost(i as int)),
            EventKind::Leave => b.leave(false, Ghost(i as int)),
        }
        i = i + 1;
    }
    assert(events@.take(i as int) =~= events@);
    let ghost before = b.replay();
    proof {
        lemma_advance_wf(before, end as int);
        lemma_advance_within(before, end as int, i as int, u64::MAX as int);
    }
    b.advance(end);
    let ghost n = i as int;
    while b.open.len() > 0
        invariant
            replay_wf(b.replay()),
            replay_within(b.replay(), n, u64::MAX as int),
            n <= usize::MAX,
            close_all(b.replay()) == closed_replay(events@, end),
        decreases b.open.len(),
    {
        proof {
            lemma_leave_wf(b.replay(), true);
            lemma_leave_at_end_within(b.replay(), n, u64::MAX as int);
        }
        b.leave(true, Ghost(n));
    }
    CallTree { nodes: b.nodes, unmatched_leaves: b.unmatched }
}

} // verus!
