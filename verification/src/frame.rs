//! Frames: what a flip makes of the events recorded since the one before.

use crate::tree::{node_views, Node, TreeView};
use crate::tree_laws::{children_inclusive, children_total};
use vstd::prelude::*;

verus! {

/// One thread's part of a frame.
#[derive(Debug)]
pub struct ThreadFrame {
    /// The thread's identifier.
    pub thread: u64,
    /// The thread's display name.
    pub name: String,
    /// The call tree, in first-seen order.
    pub nodes: Vec<Node>,
    /// Leaves that found no open call in this frame.
    pub unmatched_leaves: usize,
    /// Events from which the tree was built.
    pub event_count: usize,
    /// Events that the full buffer lost; the part is clipped if any were.
    pub dropped_events: u64,
}

/// One thread's part of a frame as a mathematical value.
pub struct ThreadFrameView {
    pub thread: u64,
    pub name: Seq<char>,
    pub tree: TreeView,
    pub events: int,
    pub dropped: int,
}

impl View for ThreadFrame {
    type V = ThreadFrameView;

    open spec fn view(&self) -> ThreadFrameView {
        ThreadFrameView {
            thread: self.thread,
            name: self.name@,
            tree: TreeView {
                nodes: node_views(self.nodes@),
                unmatched: self.unmatched_leaves as int,
            },
            events: self.event_count as int,
            dropped: self.dropped_events as int,
        }
    }
}

impl ThreadFrameView {
    /// The inclusive time of all root calls together.
    pub open spec fn root_total(self) -> int {
        children_total(self.tree.nodes, -1)
    }

    /// Events were lost while this part was recorded.
    pub open spec fn clipped(self) -> bool {
        self.dropped > 0
    }
}

impl ThreadFrame {
    /// The inclusive time of all root calls together.
    pub fn root_total(&self) -> (total: u128)
        ensures
            total == self@.root_total(),
    {
        let ghost views = node_views(self.nodes@);
        let mut total: u128 = 0;
        let mut i: usize = 0;
        while i < self.nodes.len()
            invariant
                i <= self.nodes.len(),
                views == node_views(self.nodes@),
                total == children_inclusive(views, -1, i as int),
                total <= i * 0xffff_ffff_ffff_ffff,
            decreases self.nodes.len() - i,
        {
            let n: Node = self.nodes[i];
            assert(views[i as int] == n@);
            if n.parent.is_none() {
                total = total + n.inclusive as u128;
            }
            i = i + 1;
        }
        total
    }

    /// Whether events were lost while this part was recorded.
    pub fn is_clipped(&self) -> (b: bool)
        ensures
            b == self@.clipped(),
    {
        self.dropped_events > 0
    }
}

/// The events of all threads between two flips, as call trees.
#[derive(Debug)]
pub struct Frame {
    /// The number of flips before this one.
    pub index: u64,
    /// The tick at which the frame opened.
    pub start: u64,
    /// The ticks from there to the flip that closed it.
    pub duration: u64,
    /// One part for each thread, in the order in which the threads were
    /// first seen.
    pub threads: Vec<ThreadFrame>,
}

/// A frame as a mathematical value.
pub struct FrameView {
    pub index: u64,
    pub start: u64,
    pub duration: u64,
    pub threads: Seq<ThreadFrameView>,
}

/// The views of a sequence of thread parts.
pub open spec fn part_views(parts: Seq<ThreadFrame>) -> Seq<ThreadFrameView> {
    Seq::new(parts.len(), |i: int| parts[i]@)
}

impl View for Frame {
    type V = FrameView;

    open spec fn view(&self) -> FrameView {
        FrameView {
            index: self.index,
            start: self.start,
            duration: self.duration,
            threads: part_views(self.threads@),
        }
    }
}

impl FrameView {
    /// Whether the root calls of some thread took more than `threshold`
    /// ticks together.
    pub open spec fn exceeds(self, threshold: u64) -> bool {
        exists|i: int| 0 <= i < self.threads.len() && (#[trigger] self.threads[i]).root_total()
            > threshold
    }

    /// Whether no thread has any node.
    pub open spec fn has_no_nodes(self) -> bool {
        forall|i: int| 0 <= i < self.threads.len() ==> (#[trigger] self.threads[i]).tree.nodes.len()
            == 0
    }

    /// Whether some thread lost events.
    pub open spec fn clipped(self) -> bool {
        exists|i: int| 0 <= i < self.threads.len() && (#[trigger] self.threads[i]).clipped()
    }
}

impl Frame {
    /// Whether the frame is a spike: the root calls of some thread took more
    /// than `threshold` ticks together.
    pub fn exceeds(&self, threshold: u64) -> (b: bool)
        ensures
            b == self@.exceeds(threshold),
    {
        let mut i: usize = 0;
        while i < self.threads.len()
            invariant
                i <= self.threads.len(),
                forall|j: int|
                    0 <= j < i ==> (#[trigger] self@.threads[j]).root_total() <= threshold,
            decreases self.threads.len() - i,
        {
            if self.threads[i].root_total() > threshold as u128 {
                assert(self@.threads[i as int].root_total() > threshold);
                return true;
            }
            i = i + 1;
        }
        false
    }

    /// Whether no thread has any node.
    pub fn has_no_nodes(&self) -> (b: bool)
        ensures
            b == self@.has_no_nodes(),
    {
        let mut i: usize = 0;
        while i < self.threads.len()
            invariant
                i <= self.threads.len(),
                forall|j: int| 0 <= j < i ==> (#[trigger] self@.threads[j]).tree.nodes.len() == 0,
            decreases self.threads.len() - i,
        {
            if self.threads[i].nodes.len() > 0 {
                assert(self@.threads[i as int].tree.nodes.len() > 0);
                return false;
            }
            i = i + 1;
        }
        true
    }

    /// Whether some thread lost events while the frame was recorded.
    pub fn is_clipped(&self) -> (b: bool)
        ensures
            b == self@.clipped(),
    {
        let mut i: usize = 0;
        while i < self.threads.len()
            invariant
                i <= self.threads.len(),
                forall|j: int| 0 <= j < i ==> !(#[trigger] self@.threads[j]).clipped(),
            decreases self.threads.len() - i,
        {
            if self.threads[i].is_clipped() {
                assert(self@.threads[i as int].clipped());
                return true;
            }
            i = i + 1;
        }
        false
    }
}

} // verus!
