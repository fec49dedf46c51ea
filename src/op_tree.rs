//! A read-only operation tree: a sequence of nodes, each holding a run of
//! operations in document order with cached visibility statistics, and a
//! bookmark of the most recent append.
use vstd::prelude::*;
use crate::types::{Op, OpView, Key};
use crate::list_state::{ListState, run, vis_runs, first_vis, last_vis, lemma_vis_shape};
use crate::types::{visible_at, unique_ids, OpId};

verus! {

/// A node: its operations and the statistics of their current-state visibility.
#[derive(Debug)]
pub struct OpTreeNode {
    pub ops: Vec<Op>,
    /// Number of visible elements in `ops`.
    pub vis_runs: usize,
    /// Key of the first visible operation.
    pub first_vis: Option<Key>,
    /// Key of the last visible operation.
    pub last_vis: Option<Key>,
}

/// The most recent append: the element at position `index` is the operation at offset `pos`.
#[derive(Clone, Copy, Debug, PartialEq, Eq, Structural)]
pub struct LastInsert {
    pub index: usize,
    pub pos: usize,
}

#[derive(Debug)]
pub struct OpTree {
    pub nodes: Vec<OpTreeNode>,
    pub last_insert: Option<LastInsert>,
}

pub open spec fn op_views(ops: Seq<Op>) -> Seq<OpView> {
    ops.map_values(|o: Op| o@)
}

/// The concatenation of the nodes' operations.
pub open spec fn flat(nodes: Seq<OpTreeNode>) -> Seq<OpView>
    decreases nodes.len(),
{
    if nodes.len() == 0 {
        Seq::empty()
    } else {
        flat(nodes.drop_last()) + nodes.last().view()
    }
}

/// A cursor at the start, looking for `target`.
pub open spec fn start(target: usize) -> ListState {
    ListState { index: 0, pos: 0, target, last_seen: None }
}

/// The bookmark `b` names the last element of `f` that a current-state count
/// reaches, and nothing of that element follows it.
pub open spec fn bookmark_ok(f: Seq<OpView>, b: LastInsert) -> bool {
    &&& b.pos < f.len()
    &&& f[b.pos as int].insert
    &&& visible_at(f[b.pos as int], None)
    &&& run(start(0), f.take(b.pos as int), None).index == b.index
    &&& run(start(0), f.take(b.pos + 1), None).index == b.index + 1
    &&& (b.pos + 1 == f.len() || f[b.pos + 1].insert)
}

impl View for OpTreeNode {
    type V = Seq<OpView>;

    open spec fn view(&self) -> Seq<OpView> {
        op_views(self.ops@)
    }
}

impl OpTreeNode {
    /// The cached statistics match the operations.
    pub open spec fn wf(&self) -> bool {
        &&& self.vis_runs == vis_runs(self@, None)
        &&& self.first_vis == first_vis(self@, None)
        &&& self.last_vis == last_vis(self@, None)
    }

    /// A node over `ops`, with its statistics computed.
    pub fn new(ops: Vec<Op>) -> (r: OpTreeNode)
        ensures
            r.wf(),
            r@ == op_views(ops@),
    {
        let mut n: usize = 0;
        let mut first: Option<Key> = None;
        let mut last: Option<Key> = None;
        let mut i: usize = 0;
        while i < ops.len()
            invariant
                i <= ops.len(),
                n == vis_runs(op_views(ops@).take(i as int), None),
                first == first_vis(op_views(ops@).take(i as int), None),
                last == last_vis(op_views(ops@).take(i as int), None),
            decreases ops.len() - i,
        {
            let ghost s = op_views(ops@).take(i as int + 1);
            assert(s.drop_last() =~= op_views(ops@).take(i as int));
            proof { lemma_vis_shape(op_views(ops@).take(i as int), None); }
            let k = ops[i].elemid_or_key();
            if ops[i].visible() {
                if last != Some(k) {
                    n = n + 1;
                }
                if first.is_none() {
                    first = Some(k);
                }
                last = Some(k);
            }
            i += 1;
        }
        assert(op_views(ops@).take(ops.len() as int) =~= op_views(ops@));
        OpTreeNode { ops, vis_runs: n, first_vis: first, last_vis: last }
    }
}

pub proof fn lemma_flat_take(nodes: Seq<OpTreeNode>, i: int)
    requires
        0 <= i < nodes.len(),
    ensures
        flat(nodes.take(i + 1)) == flat(nodes.take(i)) + nodes[i]@,
{
    assert(nodes.take(i + 1).drop_last() =~= nodes.take(i));
}

proof fn lemma_run_bound(s: Seq<OpView>)
    requires
        s.len() < usize::MAX,
    ensures
        run(start(0), s, None).index <= run(start(0), s, None).pos,
        run(start(0), s, None).pos == s.len(),
    decreases s.len(),
{
    if s.len() > 0 {
        lemma_run_bound(s.drop_last());
    }
}

proof fn lemma_flat_len(nodes: Seq<OpTreeNode>, i: int)
    requires
        0 <= i <= nodes.len(),
    ensures
        flat(nodes.take(i)).len() <= flat(nodes).len(),
    decreases nodes.len() - i,
{
    if i == nodes.len() {
        lemma_flat_all(nodes);
    } else {
        lemma_flat_len(nodes, i + 1);
        lemma_flat_take(nodes, i);
    }
}

pub proof fn lemma_flat_all(nodes: Seq<OpTreeNode>)
    ensures
        flat(nodes.take(nodes.len() as int)) == flat(nodes),
{
    assert(nodes.take(nodes.len() as int) =~= nodes);
}

impl OpTree {
    /// All operations, in document order.
    pub open spec fn ops(&self) -> Seq<OpView> {
        flat(self.nodes@)
    }

    pub open spec fn wf(&self) -> bool {
        &&& forall|i: int| 0 <= i < self.nodes@.len() ==> (#[trigger] self.nodes@[i]).wf()
        &&& self.ops().len() < usize::MAX
        &&& unique_ids(self.ops())
        &&& self.last_insert matches Some(b) ==> bookmark_ok(self.ops(), b)
    }

    /// A tree over `nodes`, without a bookmark; `None` when two operations
    /// share an identifier or there are too many operations.
    pub fn new(nodes: Vec<OpTreeNode>) -> (r: Option<OpTree>)
        requires
            forall|i: int| 0 <= i < nodes@.len() ==> (#[trigger] nodes@[i]).wf(),
        ensures
            r is Some <==> flat(nodes@).len() < usize::MAX && unique_ids(flat(nodes@)),
            r matches Some(t) ==> t.wf() && t.nodes@ == nodes@ && t.last_insert is None,
    {
        let mut ids: Vec<OpId> = Vec::new();
        let mut i: usize = 0;
        while i < nodes.len()
            invariant
                i <= nodes@.len(),
                ids@.len() == flat(nodes@.take(i as int)).len(),
                ids@.len() < usize::MAX,
                forall|k: int| 0 <= k < ids@.len() ==> ids@[k] == #[trigger] flat(nodes@.take(i as int))[k].id,
            decreases nodes@.len() - i,
        {
            proof { lemma_flat_take(nodes@, i as int); }
            let node = &nodes[i];
            if node.ops.len() >= usize::MAX - ids.len() {
                proof { lemma_flat_len(nodes@, i as int + 1); }
                return None;
            }
            let mut k: usize = 0;
            while k < node.ops.len()
                invariant
                    i < nodes@.len(),
                    node == nodes@[i as int],
                    k <= node.ops@.len(),
                    flat(nodes@.take(i as int + 1)) == flat(nodes@.take(i as int)) + node@,
                    ids@.len() == flat(nodes@.take(i as int)).len() + k,
                    ids@.len() + node.ops@.len() - k < usize::MAX,
                    forall|m: int| 0 <= m < ids@.len() ==> ids@[m] == #[trigger] flat(nodes@.take(i as int + 1))[m].id,
                decreases node.ops@.len() - k,
            {
                ids.push(node.ops[k].id);
                k += 1;
            }
            i += 1;
        }
        proof { lemma_flat_all(nodes@); }
        let mut a: usize = 0;
        while a < ids.len()
            invariant
                ids@.len() == flat(nodes@).len(),
                forall|k: int| 0 <= k < ids@.len() ==> ids@[k] == #[trigger] flat(nodes@)[k].id,
                a <= ids@.len(),
                forall|x: int, y: int| 0 <= x < y < ids@.len() && x < a ==> #[trigger] flat(nodes@)[x].id != #[trigger] flat(nodes@)[y].id,
            decreases ids@.len() - a,
        {
            let mut b: usize = a + 1;
            while b < ids.len()
                invariant
                    ids@.len() == flat(nodes@).len(),
                    forall|k: int| 0 <= k < ids@.len() ==> ids@[k] == #[trigger] flat(nodes@)[k].id,
                    a < b <= ids@.len(),
                    forall|y: int| a < y < b ==> flat(nodes@)[a as int].id != #[trigger] flat(nodes@)[y].id,
                decreases ids@.len() - b,
            {
                if ids[a] == ids[b] {
                    assert(ids@[a as int] == flat(nodes@)[a as int].id);
                    assert(ids@[b as int] == flat(nodes@)[b as int].id);
                    return None;
                }
                b += 1;
            }
            a += 1;
        }
        let t = OpTree { nodes, last_insert: None };
        Some(t)
    }

    /// Records `b` as the bookmark of the last append when it names the last
    /// element a current-state count reaches; otherwise leaves the tree as it is.
    pub fn set_last_insert(&mut self, b: LastInsert) -> (ok: bool)
        requires
            old(self).wf(),
        ensures
            ok == bookmark_ok(old(self).ops(), b),
            final(self).wf(),
            final(self).nodes == old(self).nodes,
            final(self).last_insert == (if ok { Some(b) } else { old(self).last_insert }),
    {
        let ghost f = self.ops();
        let op = match self.get(b.pos) {
            Some(op) => op,
            None => return false,
        };
        if !op.insert || !op.visible() {
            return false;
        }
        let mut st = ListState::new(0);
        let mut i: usize = 0;
        let mut off: usize = 0;
        while i < self.nodes.len() && off < b.pos
            invariant
                self.wf(),
                f == self.ops(),
                b.pos < f.len(),
                i <= self.nodes@.len(),
                off <= b.pos,
                off == flat(self.nodes@.take(i as int)).len() || (off == b.pos && off <= flat(self.nodes@.take(i as int)).len()),
                st == run(start(0), f.take(off as int), None),
            decreases self.nodes@.len() - i,
        {
            proof {
                lemma_flat_take(self.nodes@, i as int);
                self.lemma_prefix(i as int + 1);
            }
            let node = &self.nodes[i];
            let mut k: usize = 0;
            while k < node.ops.len() && off < b.pos
                invariant
                    f == self.ops(),
                    b.pos < f.len(),
                    i < self.nodes@.len(),
                    node == self.nodes@[i as int],
                    flat(self.nodes@.take(i as int + 1)) == flat(self.nodes@.take(i as int)) + node@,
                    flat(self.nodes@.take(i as int + 1)).len() <= f.len(),
                    forall|m: int| 0 <= m < flat(self.nodes@.take(i as int + 1)).len() ==> #[trigger] flat(self.nodes@.take(i as int + 1))[m] == f[m],
                    k <= node.ops@.len(),
                    off <= b.pos,
                    off == flat(self.nodes@.take(i as int)).len() + k,
                    st == run(start(0), f.take(off as int), None),
                decreases node.ops@.len() - k,
            {
                proof {
                    assert(f.take(off as int + 1).drop_last() =~= f.take(off as int));
                    assert(flat(self.nodes@.take(i as int + 1))[off as int] == node@[k as int]);
                    lemma_run_bound(f.take(off as int));
                }
                let o = &node.ops[k];
                st.process_op(o.elemid_or_key(), o.visible());
                off += 1;
                k += 1;
            }
            if off < b.pos {
                proof { assert(node@.len() == k); }
            }
            i += 1;
        }
        proof {
            lemma_flat_all(self.nodes@);
            assert(off == b.pos);
        }
        if st.index != b.index {
            return false;
        }
        proof {
            assert(f.take(b.pos as int + 1).drop_last() =~= f.take(b.pos as int));
            lemma_run_bound(f.take(b.pos as int));
        }
        st.process_op(op.elemid_or_key(), true);
        if st.index != b.index + 1 {
            return false;
        }
        match self.get(b.pos + 1) {
            Some(next) => {
                if !next.insert {
                    return false;
                }
            },
            None => {},
        }
        self.last_insert = Some(b);
        true
    }

    /// The operation at offset `pos`.
    pub fn get(&self, pos: usize) -> (r: Option<&Op>)
        ensures
            r is Some <==> pos < self.ops().len(),
            r matches Some(op) ==> op@ == self.ops()[pos as int],
    {
        let mut i: usize = 0;
        let mut off: usize = pos;
        while i < self.nodes.len()
            invariant
                i <= self.nodes.len(),
                pos >= flat(self.nodes@.take(i as int)).len(),
                off == pos - flat(self.nodes@.take(i as int)).len(),
            decreases self.nodes.len() - i,
        {
            proof { lemma_flat_take(self.nodes@, i as int); }
            let node = &self.nodes[i];
            if off < node.ops.len() {
                proof {
                    self.lemma_prefix(i as int + 1);
                    assert(flat(self.nodes@.take(i as int + 1))[pos as int] == self.nodes@[i as int]@[off as int]);
                }
                return Some(&node.ops[off]);
            }
            off = off - node.ops.len();
            i += 1;
        }
        proof { lemma_flat_all(self.nodes@); }
        None
    }

    pub proof fn lemma_prefix(&self, i: int)
        requires
            0 <= i <= self.nodes@.len(),
        ensures
            flat(self.nodes@.take(i)).len() <= self.ops().len(),
            forall|k: int| 0 <= k < flat(self.nodes@.take(i)).len() ==> #[trigger] flat(self.nodes@.take(i))[k] == self.ops()[k],
        decreases self.nodes@.len() - i,
    {
        if i == self.nodes@.len() {
            lemma_flat_all(self.nodes@);
        } else {
            self.lemma_prefix(i + 1);
            lemma_flat_take(self.nodes@, i);
            assert forall|k: int| 0 <= k < flat(self.nodes@.take(i)).len() implies #[trigger] flat(self.nodes@.take(i))[k] == self.ops()[k] by {
                assert(flat(self.nodes@.take(i + 1))[k] == flat(self.nodes@.take(i))[k]);
            }
        }
    }
}

} // verus!
