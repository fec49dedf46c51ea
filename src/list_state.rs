//! The position cursor: counts visible list elements in document order.
use vstd::prelude::*;
use crate::types::{Key, OpView, elem_key, visible_at, ClockEntry};
use crate::op_tree::OpTreeNode;

verus! {

/// Cursor over the operations of a list, in document order.
#[derive(Clone, Copy, Debug, PartialEq, Eq, Structural)]
pub struct ListState {
    /// Number of visible elements counted so far.
    pub index: usize,
    /// Number of operations passed so far (the tree offset reached).
    pub pos: usize,
    /// The zero-based position looked for.
    pub target: usize,
    /// Key of the last visible operation counted.
    pub last_seen: Option<Key>,
}

/// The cursor has counted the element at `target`.
pub open spec fn done(st: ListState) -> bool {
    st.index > st.target
}

/// Passing one operation with key `k`: a visible operation whose key differs
/// from the last visible one starts a new element.
pub open spec fn step(st: ListState, k: Key, vis: bool) -> ListState {
    ListState {
        index: if vis && st.last_seen != Some(k) { (st.index + 1) as usize } else { st.index },
        pos: (st.pos + 1) as usize,
        target: st.target,
        last_seen: if vis { Some(k) } else { st.last_seen },
    }
}

/// The cursor after passing every operation of `s`.
pub open spec fn run(st: ListState, s: Seq<OpView>, clock: Option<Seq<ClockEntry>>) -> ListState
    decreases s.len(),
{
    if s.len() == 0 {
        st
    } else {
        step(run(st, s.drop_last(), clock), elem_key(s.last()), visible_at(s.last(), clock))
    }
}

/// Key of the last visible operation of `s`.
pub open spec fn last_vis(s: Seq<OpView>, clock: Option<Seq<ClockEntry>>) -> Option<Key>
    decreases s.len(),
{
    if s.len() == 0 {
        None
    } else if visible_at(s.last(), clock) {
        Some(elem_key(s.last()))
    } else {
        last_vis(s.drop_last(), clock)
    }
}

/// Key of the first visible operation of `s`.
pub open spec fn first_vis(s: Seq<OpView>, clock: Option<Seq<ClockEntry>>) -> Option<Key>
    decreases s.len(),
{
    if s.len() == 0 {
        None
    } else if first_vis(s.drop_last(), clock) is Some {
        first_vis(s.drop_last(), clock)
    } else if visible_at(s.last(), clock) {
        Some(elem_key(s.last()))
    } else {
        None
    }
}

/// Number of visible elements of `s`: runs of visible operations that share a key.
pub open spec fn vis_runs(s: Seq<OpView>, clock: Option<Seq<ClockEntry>>) -> nat
    decreases s.len(),
{
    if s.len() == 0 {
        0
    } else if visible_at(s.last(), clock) && last_vis(s.drop_last(), clock) != Some(elem_key(s.last())) {
        vis_runs(s.drop_last(), clock) + 1
    } else {
        vis_runs(s.drop_last(), clock)
    }
}

/// Elements that `s` adds to a count whose last visible key is `seen`.
pub open spec fn added_runs(s: Seq<OpView>, clock: Option<Seq<ClockEntry>>, seen: Option<Key>) -> nat {
    if first_vis(s, clock) is Some && first_vis(s, clock) == seen {
        (vis_runs(s, clock) - 1) as nat
    } else {
        vis_runs(s, clock)
    }
}

pub proof fn lemma_vis_shape(s: Seq<OpView>, clock: Option<Seq<ClockEntry>>)
    ensures
        (first_vis(s, clock) is None) == (last_vis(s, clock) is None),
        first_vis(s, clock) is None ==> vis_runs(s, clock) == 0,
        first_vis(s, clock) is Some ==> vis_runs(s, clock) >= 1,
        vis_runs(s, clock) <= s.len(),
    decreases s.len(),
{
    if s.len() > 0 {
        lemma_vis_shape(s.drop_last(), clock);
    }
}

/// Passing a run of operations changes the cursor as the run's aggregate
/// statistics say.
pub proof fn lemma_run_stats(st: ListState, s: Seq<OpView>, clock: Option<Seq<ClockEntry>>)
    requires
        st.index + s.len() <= usize::MAX,
        st.pos + s.len() <= usize::MAX,
    ensures
        run(st, s, clock).index == st.index + added_runs(s, clock, st.last_seen),
        run(st, s, clock).pos == st.pos + s.len(),
        run(st, s, clock).target == st.target,
        run(st, s, clock).last_seen == (if last_vis(s, clock) is Some { last_vis(s, clock) } else { st.last_seen }),
    decreases s.len(),
{
    lemma_vis_shape(s, clock);
    if s.len() > 0 {
        lemma_run_stats(st, s.drop_last(), clock);
        lemma_vis_shape(s.drop_last(), clock);
    }
}

/// Passing operations never lowers the count.
pub proof fn lemma_run_monotone(st: ListState, s: Seq<OpView>, clock: Option<Seq<ClockEntry>>)
    requires
        st.index + s.len() <= usize::MAX,
        st.pos + s.len() <= usize::MAX,
    ensures
        st.index <= run(st, s, clock).index <= st.index + s.len(),
        run(st, s, clock).pos == st.pos + s.len(),
        run(st, s, clock).target == st.target,
    decreases s.len(),
{
    if s.len() > 0 {
        lemma_run_monotone(st, s.drop_last(), clock);
    }
}

/// Passing `a` then `b` is passing `a + b`.
pub proof fn lemma_run_append(st: ListState, a: Seq<OpView>, b: Seq<OpView>, clock: Option<Seq<ClockEntry>>)
    ensures
        run(st, a + b, clock) == run(run(st, a, clock), b, clock),
    decreases b.len(),
{
    if b.len() == 0 {
        assert(a + b =~= a);
    } else {
        assert((a + b).drop_last() =~= a + b.drop_last());
        lemma_run_append(st, a, b.drop_last(), clock);
    }
}

impl ListState {
    /// A cursor looking for the element at zero-based position `target`.
    pub fn new(target: usize) -> (r: ListState)
        ensures
            r == (ListState { index: 0, pos: 0, target, last_seen: None }),
    {
        ListState { index: 0, pos: 0, target, last_seen: None }
    }

    pub fn done(&self) -> (r: bool)
        ensures
            r == done(*self),
    {
        self.index > self.target
    }

    /// The zero-based position looked for.
    pub fn target(&self) -> (r: usize)
        ensures
            r == self.target,
    {
        self.target
    }

    /// Position of the last element counted.
    pub fn last_index(&self) -> (r: usize)
        ensures
            r == (if self.index == 0 { 0 } else { self.index - 1 }),
    {
        if self.index == 0 { 0 } else { self.index - 1 }
    }

    /// Tree offset reached.
    pub fn pos(&self) -> (r: usize)
        ensures
            r == self.pos,
    {
        self.pos
    }

    /// Passes over `node` as a whole, from its cached statistics, when the
    /// position looked for lies beyond it; otherwise leaves the cursor as it is.
    /// Valid for current-state visibility only.
    pub fn process_node(&mut self, node: &OpTreeNode) -> (skipped: bool)
        requires
            node.wf(),
            old(self).index <= old(self).pos,
            old(self).pos + node.ops.len() <= usize::MAX,
        ensures
            skipped == (old(self).index + added_runs(node@, None, old(self).last_seen) <= old(self).target),
            skipped ==> *final(self) == run(*old(self), node@, None),
            !skipped ==> *final(self) == *old(self),
    {
        proof {
            lemma_vis_shape(node@, None);
            lemma_run_stats(*self, node@, None);
        }
        let added = if node.first_vis.is_some() && node.first_vis == self.last_seen {
            node.vis_runs - 1
        } else {
            node.vis_runs
        };
        if self.index > self.target || added > self.target - self.index {
            return false;
        }
        self.index = self.index + added;
        self.pos = self.pos + node.ops.len();
        if node.last_vis.is_some() {
            self.last_seen = node.last_vis;
        }
        true
    }

    /// Passes one operation with key `key` and visibility `visible`.
    pub fn process_op(&mut self, key: Key, visible: bool)
        requires
            old(self).index <= old(self).pos,
            old(self).pos < usize::MAX,
        ensures
            *final(self) == step(*old(self), key, visible),
    {
        if visible && self.last_seen != Some(key) {
            self.index = self.index + 1;
        }
        if visible {
            self.last_seen = Some(key);
        }
        self.pos = self.pos + 1;
    }

    /// Jumps to just after the operation at `pos`, which is counted as the
    /// element at position `index` and has key `key`.
    pub fn seek(&mut self, index: usize, pos: usize, key: Key)
        requires
            index < usize::MAX,
            pos < usize::MAX,
        ensures
            *final(self) == (ListState { index: (index + 1) as usize, pos: (pos + 1) as usize, target: old(self).target, last_seen: Some(key) }),
    {
        self.index = index + 1;
        self.pos = pos + 1;
        self.last_seen = Some(key);
    }
}

} // verus!
