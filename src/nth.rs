//! The n-th visible element query.
use vstd::prelude::*;
use crate::types::{OpId, Key, Op, OpView, Clock, ClockEntry, elem_key, elem_id, is_mark, visible_at, id_lt, unique_ids};
use crate::list_state::{ListState, done, step, run, added_runs, vis_runs, lemma_vis_shape, lemma_run_stats, lemma_run_monotone, lemma_run_append};
use crate::op_tree::{OpTree, OpTreeNode, LastInsert, flat, start, bookmark_ok, lemma_flat_take, lemma_flat_all};
use crate::marks::{MarkMap, MarkSet, MarkEvent, distinct_ids, overlay, lists};

verus! {

/// What the tree walker does next.
#[derive(Clone, Copy, Debug, PartialEq, Eq, Structural)]
pub enum QueryResult {
    /// Go on with the next operation.
    Next,
    /// Visit the node's operations one by one.
    Descend,
    /// Pass over the node as a whole.
    Skip,
    /// Stop the walk.
    Finish,
}

/// The only error of the query.
#[derive(Clone, Copy, Debug, PartialEq, Eq, Structural)]
pub enum NthError {
    /// No element at the position asked for; carries the last valid position
    /// (zero when the list is empty).
    InvalidIndex(usize),
}

/// The query's state after walking the operations `s` one by one.
pub struct Walk {
    pub cursor: ListState,
    /// Offsets of the operations found at the position.
    pub found: Seq<int>,
    /// Mark operations met, when marks are tracked.
    pub log: Seq<MarkEvent>,
    /// The walk met the first insertion after the position.
    pub finished: bool,
}

/// The element-by-element walk over `s` looking for position `target`.
pub open spec fn walk(s: Seq<OpView>, clock: Option<Seq<ClockEntry>>, marks_on: bool, target: usize) -> Walk
    decreases s.len(),
{
    if s.len() == 0 {
        Walk { cursor: start(target), found: Seq::empty(), log: Seq::empty(), finished: false }
    } else {
        let w = walk(s.drop_last(), clock, marks_on, target);
        let op = s.last();
        if w.finished || (op.insert && done(w.cursor)) {
            Walk { finished: true, ..w }
        } else {
            let vis = visible_at(op, clock);
            let c = step(w.cursor, elem_key(op), vis);
            Walk {
                cursor: c,
                found: if vis && done(c) { w.found.push(c.pos - 1) } else { w.found },
                log: if marks_on && is_mark(op) { w.log.push(MarkEvent { id: op.id, action: op.action }) } else { w.log },
                finished: false,
            }
        }
    }
}

/// Every non-inserting operation belongs to the element of the operation before it.
pub open spec fn grouped(s: Seq<OpView>) -> bool {
    forall|i: int| 0 <= i < s.len() && !(#[trigger] s[i]).insert ==> i > 0 && elem_key(s[i]) == elem_key(s[i - 1])
}

/// The query for the visible element at a zero-based position.
#[derive(Debug)]
pub struct Nth<'a> {
    pub idx: ListState,
    pub clock: Option<Clock>,
    pub marks: Option<MarkMap>,
    /// Operations found at the position.
    pub ops: Vec<&'a Op>,
    /// Their offsets in the tree.
    pub ops_pos: Vec<usize>,
}

pub open spec fn clock_of(c: Option<Clock>) -> Option<Seq<ClockEntry>> {
    match c {
        None => None,
        Some(c) => Some(c.entries@),
    }
}

/// The key of the position found, or the error.
pub open spec fn key_of(ops: Seq<OpView>, index: usize) -> Result<Key, NthError> {
    if ops.len() > 0 && elem_id(ops[0]) is Some {
        Ok(Key::Elem(elem_id(ops[0])->Some_0))
    } else {
        Err(NthError::InvalidIndex(index_of(index)))
    }
}

/// Position of the last element counted by a cursor at `index`.
pub open spec fn index_of(index: usize) -> usize {
    if index == 0 { 0 } else { (index - 1) as usize }
}

/// `r` holds the identifiers of `ops`, each once, in increasing order.
pub open spec fn sorted_ids(r: Seq<OpId>, ops: Seq<OpView>) -> bool {
    &&& forall|i: int, j: int| 0 <= i < j < r.len() ==> id_lt(#[trigger] r[i], #[trigger] r[j])
    &&& forall|x: OpId| r.contains(x) <==> exists|i: int| 0 <= i < ops.len() && (#[trigger] ops[i]).id == x
}

impl<'a> Nth<'a> {
    pub open spec fn clock_view(&self) -> Option<Seq<ClockEntry>> {
        clock_of(self.clock)
    }

    pub open spec fn found_ops(&self) -> Seq<OpView> {
        self.ops@.map_values(|o: &Op| o@)
    }

    /// The query's state is the walk `w` over `f`.
    pub open spec fn is_walk(&self, w: Walk, f: Seq<OpView>) -> bool {
        &&& self.idx == w.cursor
        &&& self.ops@.len() == w.found.len()
        &&& self.ops_pos@.len() == w.found.len()
        &&& forall|i: int| 0 <= i < w.found.len() ==> self.ops_pos@[i] == #[trigger] w.found[i] && 0 <= w.found[i] < f.len() && self.ops@[i]@ == f[w.found[i]]
        &&& self.marks matches Some(m) ==> m@ == w.log
    }

    /// The state of a query after walking all of `tree`.
    pub open spec fn searched(&self, tree: &OpTree, target: usize) -> bool {
        self.is_walk(walk(tree.ops(), self.clock_view(), self.marks is Some, target), tree.ops())
    }

    /// A query for the element at zero-based position `target`, as of `clock`
    /// or at the current state.
    pub fn new(target: usize, clock: Option<Clock>) -> (r: Nth<'a>)
        ensures
            r.idx == start(target),
            r.clock == clock,
            r.marks is None,
            r.ops@.len() == 0,
            r.ops_pos@.len() == 0,
    {
        Nth { idx: ListState::new(target), clock, marks: None, ops: Vec::new(), ops_pos: Vec::new() }
    }

    /// The same query, also tracking formatting marks.
    pub fn with_marks(self) -> (r: Nth<'a>)
        ensures
            r.idx == self.idx,
            r.clock == self.clock,
            r.marks matches Some(m) && m@.len() == 0,
            r.ops == self.ops,
            r.ops_pos == self.ops_pos,
    {
        Nth { marks: Some(MarkMap::new()), ..self }
    }

    /// The formatting in force at the position found, as a shared immutable
    /// value: `None` when marks are not tracked or none is in force.
    pub fn marks(&self) -> (r: Option<std::sync::Arc<MarkSet>>)
        requires
            self.marks matches Some(m) ==> distinct_ids(m@),
        ensures
            match self.marks {
                None => r is None,
                Some(m) => match r {
                    None => overlay(m@.to_set()).dom().is_empty(),
                    Some(set) => !overlay(m@.to_set()).dom().is_empty() && lists(set@, overlay(m@.to_set())),
                },
            },
    {
        match &self.marks {
            None => None,
            Some(m) => {
                let v = m.merged();
                if v.len() == 0 {
                    proof {
                        let o = overlay(m@.to_set());
                        assert forall|n: u64| !o.dom().contains(n) by {
                            if o.dom().contains(n) {
                                assert(v@.contains((n, o[n])));
                            }
                        }
                        assert(o.dom() =~= Set::<u64>::empty());
                    }
                    None
                } else {
                    proof {
                        assert(v@[0] == (v@[0].0, v@[0].1));
                        assert(v@.contains((v@[0].0, v@[0].1)));
                        assert(overlay(m@.to_set()).dom().contains(v@[0].0));
                    }
                    Some(std::sync::Arc::new(MarkSet { marks: v }))
                }
            }
        }
    }

    /// The identifiers of the operations found, each once, in increasing order.
    pub fn pred(&self) -> (r: Vec<OpId>)
        ensures
            sorted_ids(r@, self.found_ops()),
    {
        let mut r: Vec<OpId> = Vec::new();
        let mut i: usize = 0;
        while i < self.ops.len()
            invariant
                i <= self.ops.len(),
                forall|a: int, b: int| 0 <= a < b < r@.len() ==> id_lt(#[trigger] r@[a], #[trigger] r@[b]),
                forall|x: OpId| r@.contains(x) <==> exists|k: int| 0 <= k < i && (#[trigger] self.found_ops()[k]).id == x,
            decreases self.ops.len() - i,
        {
            let id = self.ops[i].id;
            assert(self.found_ops()[i as int].id == id);
            let mut j: usize = 0;
            while j < r.len() && r[j].lt(&id)
                invariant
                    j <= r@.len(),
                    forall|k: int| 0 <= k < j ==> id_lt(#[trigger] r@[k], id),
                decreases r@.len() - j,
            {
                j += 1;
            }
            let ghost r0 = r@;
            if j < r.len() && r[j] == id {
                assert(r@.contains(id));
                assert(forall|x: OpId| r@.contains(x) <==> (r0.contains(x) || x == id));
            } else {
                r.insert(j, id);
                assert(r@ =~= r0.take(j as int).push(id) + r0.skip(j as int));
                assert forall|a: int, b: int| 0 <= a < b < r@.len() implies id_lt(#[trigger] r@[a], #[trigger] r@[b]) by {
                    if b < j {
                        assert(r@[a] == r0[a] && r@[b] == r0[b]);
                    } else if b == j {
                        assert(r@[a] == r0[a]);
                    } else if a == j {
                        assert(r@[b] == r0[b - 1]);
                        assert(!id_lt(r0[j as int], id));
                        if b - 1 > j {
                            assert(id_lt(r0[j as int], r0[b - 1]));
                        }
                    } else if a < j {
                        assert(r@[a] == r0[a] && r@[b] == r0[b - 1]);
                        assert(id_lt(r0[a], r0[j as int]));
                    } else {
                        assert(r@[a] == r0[a - 1] && r@[b] == r0[b - 1]);
                    }
                }
                assert forall|x: OpId| r@.contains(x) <==> (r0.contains(x) || x == id) by {
                    if r@.contains(x) {
                        let p = choose|p: int| 0 <= p < r@.len() && r@[p] == x;
                        if p < j {
                            assert(r0[p] == x);
                        } else if p > j {
                            assert(r0[p - 1] == x);
                        }
                    }
                    if r0.contains(x) {
                        let p = choose|p: int| 0 <= p < r0.len() && r0[p] == x;
                        if p < j {
                            assert(r@[p] == x);
                        } else {
                            assert(r@[p + 1] == x);
                        }
                    }
                    if x == id {
                        assert(r@[j as int] == x);
                    }
                }
            }
            proof { lemma_ids_step(r@, r0, self.found_ops(), i as int, id); }
            i += 1;
        }
        r
    }

    /// The key of the element found; an error when the position is past the
    /// visible elements.
    pub fn key(&self) -> (r: Result<Key, NthError>)
        ensures
            r == key_of(self.found_ops(), self.idx.index),
    {
        if self.ops.len() > 0 {
            assert(self.found_ops()[0] == self.ops@[0]@);
            match self.ops[0].elemid() {
                Some(e) => return Ok(Key::Elem(e)),
                None => {},
            }
        }
        Err(NthError::InvalidIndex(if self.idx.index == 0 { 0 } else { self.idx.index - 1 }))
    }

    /// Position of the last element counted.
    pub fn index(&self) -> (r: usize)
        ensures
            r == index_of(self.idx.index),
    {
        self.idx.last_index()
    }

    /// Tree offset reached.
    pub fn pos(&self) -> (r: usize)
        ensures
            r == self.idx.pos,
    {
        self.idx.pos()
    }

    /// Two results name the same position: same index and same key.
    pub fn equiv(&self, other: &Nth) -> (r: bool)
        ensures
            r == (index_of(self.idx.index) == index_of(other.idx.index) && key_of(self.found_ops(), self.idx.index) == key_of(other.found_ops(), other.idx.index)),
    {
        if self.index() != other.index() {
            return false;
        }
        match (self.key(), other.key()) {
            (Ok(a), Ok(b)) => a == b,
            (Err(NthError::InvalidIndex(a)), Err(NthError::InvalidIndex(b))) => a == b,
            _ => false,
        }
    }
}

impl<'a> Nth<'a> {
    /// Visits one operation in document order.
    pub fn query_element(&mut self, element: &'a Op) -> (r: QueryResult)
        requires
            old(self).idx.index <= old(self).idx.pos,
            old(self).idx.pos < usize::MAX,
        ensures
            element.insert && done(old(self).idx) ==> r == QueryResult::Finish && *final(self) == *old(self),
            !(element.insert && done(old(self).idx)) ==> {
                let vis = visible_at(element@, old(self).clock_view());
                let c = step(old(self).idx, elem_key(element@), vis);
                &&& r == QueryResult::Next
                &&& final(self).idx == c
                &&& final(self).clock == old(self).clock
                &&& final(self).ops@ == (if vis && done(c) { old(self).ops@.push(element) } else { old(self).ops@ })
                &&& final(self).ops_pos@ == (if vis && done(c) { old(self).ops_pos@.push((c.pos - 1) as usize) } else { old(self).ops_pos@ })
                &&& final(self).marks is Some == old(self).marks is Some
                &&& (final(self).marks matches Some(m) ==> m@ == (if is_mark(element@) {
                    old(self).marks->Some_0@.push(MarkEvent { id: element.id, action: element.action })
                } else {
                    old(self).marks->Some_0@
                }))
            },
    {
        if element.insert && self.idx.done() {
            return QueryResult::Finish;
        }
        match &mut self.marks {
            Some(m) => m.process(element.id, element.action),
            None => {},
        }
        let visible = element.visible_at(self.clock.as_ref());
        let key = element.elemid_or_key();
        self.idx.process_op(key, visible);
        if visible && self.idx.done() {
            self.ops.push(element);
            self.ops_pos.push(self.idx.pos - 1);
        }
        QueryResult::Next
    }

    /// Decides whether to pass over `node` as a whole. That is done only at the
    /// current state without marks, where the node's statistics count what the
    /// walk would, and only when the position lies beyond the node.
    pub fn query_node(&mut self, node: &OpTreeNode) -> (r: QueryResult)
        requires
            node.wf(),
            old(self).idx.index <= old(self).idx.pos,
            old(self).idx.pos + node.ops.len() <= usize::MAX,
        ensures
            ({
                let skip = old(self).clock is None && old(self).marks is None
                    && old(self).idx.index + added_runs(node@, None, old(self).idx.last_seen) <= old(self).idx.target;
                &&& skip ==> r == QueryResult::Skip && *final(self) == (Nth { idx: run(old(self).idx, node@, None), ..*old(self) })
                &&& !skip ==> r == QueryResult::Descend && *final(self) == *old(self)
            }),
    {
        if self.clock.is_some() || self.marks.is_some() {
            return QueryResult::Descend;
        }
        if self.idx.process_node(node) {
            QueryResult::Skip
        } else {
            QueryResult::Descend
        }
    }

    /// Answers from the tree's bookmark of its last append, when the position
    /// asked for is that element and neither a snapshot nor marks are asked for.
    /// When it answers, the answer is that of a full walk.
    pub fn can_shortcut_search(&mut self, tree: &'a OpTree) -> (r: bool)
        requires
            tree.wf(),
            old(self).idx == start(old(self).idx.target),
            old(self).ops@.len() == 0,
            old(self).ops_pos@.len() == 0,
            old(self).marks matches Some(m) ==> m@.len() == 0,
        ensures
            r == (old(self).clock is None && old(self).marks is None
                && tree.last_insert is Some && tree.last_insert->Some_0.index == old(self).idx.target),
            r ==> final(self).searched(tree, old(self).idx.target),
            r ==> final(self).clock == old(self).clock && final(self).marks == old(self).marks,
            !r ==> *final(self) == *old(self),
    {
        if self.clock.is_some() || self.marks.is_some() {
            return false;
        }
        match tree.last_insert {
            Some(last) => {
                if last.index == self.idx.target {
                    match tree.get(last.pos) {
                        Some(op) => {
                            proof {
                                lemma_shortcut(tree.ops(), last);
                                lemma_run_monotone(start(0), tree.ops().take(last.pos + 1), None);
                            }
                            let key = op.elemid_or_key();
                            self.idx.seek(last.index, last.pos, key);
                            self.ops.push(op);
                            self.ops_pos.push(last.pos);
                            proof {
                                let w = walk(tree.ops(), None, false, self.idx.target);
                                assert(w.found[0] == last.pos);
                            }
                            true
                        },
                        None => false,
                    }
                } else {
                    false
                }
            },
            None => false,
        }
    }

    /// Walks `tree` to the position asked for.
    #[verifier::rlimit(60)]
    pub fn search(&mut self, tree: &'a OpTree)
        requires
            tree.wf(),
            old(self).idx == start(old(self).idx.target),
            old(self).ops@.len() == 0,
            old(self).ops_pos@.len() == 0,
            old(self).marks matches Some(m) ==> m@.len() == 0,
        ensures
            final(self).searched(tree, old(self).idx.target),
            final(self).clock == old(self).clock,
            final(self).marks is Some == old(self).marks is Some,
            final(self).marks matches Some(m) ==> distinct_ids(m@),
    {
        let ghost t = self.idx.target;
        let ghost f = tree.ops();
        let ghost cv = self.clock_view();
        let ghost mo = self.marks is Some;
        let ghost c0 = self.clock;
        proof { lemma_walk_log(f, cv, mo, t); }
        if self.can_shortcut_search(tree) {
            return;
        }
        let mut i: usize = 0;
        proof {
            assert(tree.nodes@.take(0) =~= Seq::<OpTreeNode>::empty());
            assert(flat(tree.nodes@.take(0)) =~= Seq::<OpView>::empty());
            assert(walk(Seq::<OpView>::empty(), cv, mo, t).cursor == self.idx);
            if self.marks is Some {
                assert(self.marks->Some_0@ =~= Seq::<MarkEvent>::empty());
            }
        }
        while i < tree.nodes.len()
            invariant
                tree.wf(),
                f == tree.ops(),
                i <= tree.nodes@.len(),
                cv == self.clock_view(),
                c0 == self.clock,
                c0 == old(self).clock,
                t == old(self).idx.target,
                mo == (old(self).marks is Some),
                mo ==> distinct_ids(walk(f, cv, mo, t).log),
                mo == (self.marks is Some),
                self.idx.target == t,
                self.is_walk(walk(flat(tree.nodes@.take(i as int)), cv, mo, t), f),
                !walk(flat(tree.nodes@.take(i as int)), cv, mo, t).finished,
                mo ==> distinct_ids(walk(f, cv, mo, t).log),
            decreases tree.nodes@.len() - i,
        {
            let ghost p = flat(tree.nodes@.take(i as int));
            let node = &tree.nodes[i];
            proof {
                lemma_flat_take(tree.nodes@, i as int);
                tree.lemma_prefix(i as int + 1);
                assert(tree.nodes@[i as int].wf());
                lemma_walk_cursor(p, cv, mo, t);
                lemma_run_monotone(start(t), p, cv);
            }
            match self.query_node(node) {
                QueryResult::Skip => {
                    proof {
                        let c = walk(p, cv, mo, t).cursor;
                        lemma_run_stats(c, node@, None);
                        lemma_run_monotone(c, node@, None);
                        lemma_walk_skip(p, node@, mo, t);
                        lemma_walk_cursor(p + node@, cv, mo, t);
                    }
                },
                _ => {
                    let mut j: usize = 0;
                    assert(p + node@.take(0) =~= p);
                    while j < node.ops.len()
                        invariant
                            tree.wf(),
                            f == tree.ops(),
                            i < tree.nodes@.len(),
                            node == tree.nodes@[i as int],
                            p == flat(tree.nodes@.take(i as int)),
                            flat(tree.nodes@.take(i as int + 1)) == p + node@,
                            forall|k: int| 0 <= k < (p + node@).len() ==> #[trigger] (p + node@)[k] == f[k],
                            (p + node@).len() <= f.len(),
                            j <= node.ops.len(),
                            cv == self.clock_view(),
                            c0 == self.clock,
                c0 == old(self).clock,
                t == old(self).idx.target,
                mo == (old(self).marks is Some),
                mo ==> distinct_ids(walk(f, cv, mo, t).log),
                            mo == (self.marks is Some),
                            self.idx.target == t,
                            self.is_walk(walk(p + node@.take(j as int), cv, mo, t), f),
                            !walk(p + node@.take(j as int), cv, mo, t).finished,
                        decreases node.ops.len() - j,
                    {
                        let ghost q = p + node@.take(j as int);
                        proof {
                            assert(p + node@.take(j as int + 1) =~= q.push(node@[j as int]));
                            assert(f[q.len() as int] == (p + node@)[q.len() as int]);
                            assert((p + node@)[q.len() as int] == node@[j as int]);
                            lemma_walk_cursor(q, cv, mo, t);
                            lemma_run_monotone(start(t), q, cv);
                            lemma_walk_push(q, node@[j as int], cv, mo, t);
                            assert(node@[j as int] == node.ops@[j as int]@);
                        }
                        let ghost before = *self;
                        let r = self.query_element(&node.ops[j]);
                        match r {
                            QueryResult::Finish => {
                                proof {
                                    let q1 = p + node@.take(j as int + 1);
                                    assert forall|k: int| 0 <= k < q1.len() implies q1[k] == f[k] by {
                                        assert(q1[k] == (p + node@)[k]);
                                    }
                                    assert(f =~= q1 + f.skip(q1.len() as int));
                                    lemma_walk_finished(q1, f.skip(q1.len() as int), cv, mo, t);
                                }
                                return;
                            },
                            _ => {
                                proof {
                                    let w0 = walk(q, cv, mo, t);
                                    let w = walk(p + node@.take(j as int + 1), cv, mo, t);
                                    assert forall|k: int| 0 <= k < w.found.len() implies self.ops_pos@[k] == #[trigger] w.found[k] && 0 <= w.found[k] < f.len() && self.ops@[k]@ == f[w.found[k]] by {
                                        if k < w0.found.len() {
                                            assert(self.ops@[k] == before.ops@[k]);
                                            assert(w.found[k] == w0.found[k]);
                                        } else {
                                            assert(w.found[k] == q.len());
                                        }
                                    }
                                }
                            },
                        }
                        j += 1;
                    }
                    proof { assert(node@.take(node@.len() as int) =~= node@); }
                },
            }
            i += 1;
        }
        proof { lemma_flat_all(tree.nodes@); }
    }
}

proof fn lemma_ids_step(r: Seq<OpId>, r0: Seq<OpId>, ops: Seq<OpView>, i: int, id: OpId)
    requires
        0 <= i < ops.len(),
        ops[i].id == id,
        forall|x: OpId| r0.contains(x) <==> exists|k: int| 0 <= k < i && (#[trigger] ops[k]).id == x,
        forall|x: OpId| r.contains(x) <==> (r0.contains(x) || x == id),
    ensures
        forall|x: OpId| r.contains(x) <==> exists|k: int| 0 <= k < i + 1 && (#[trigger] ops[k]).id == x,
{
    assert forall|x: OpId| r.contains(x) <==> exists|k: int| 0 <= k < i + 1 && (#[trigger] ops[k]).id == x by {
        if exists|k: int| 0 <= k < i + 1 && (#[trigger] ops[k]).id == x {
            let k = choose|k: int| 0 <= k < i + 1 && (#[trigger] ops[k]).id == x;
            if k < i {
                assert(r0.contains(x));
            }
        }
        if r.contains(x) && x != id {
            assert(r0.contains(x));
        }
    }
}

/// Before the position is reached the walk is the cursor's count, with nothing found.
pub proof fn lemma_walk_cursor(s: Seq<OpView>, clock: Option<Seq<ClockEntry>>, marks_on: bool, target: usize)
    requires
        s.len() <= usize::MAX,
    ensures
        !walk(s, clock, marks_on, target).finished ==> walk(s, clock, marks_on, target).cursor == run(start(target), s, clock),
        !done(run(start(target), s, clock)) ==> !walk(s, clock, marks_on, target).finished && walk(s, clock, marks_on, target).found.len() == 0,
        !marks_on ==> walk(s, clock, marks_on, target).log.len() == 0,
        forall|k: int| 0 <= k < walk(s, clock, marks_on, target).found.len() ==> 0 <= #[trigger] walk(s, clock, marks_on, target).found[k] < s.len(),
    decreases s.len(),
{
    if s.len() > 0 {
        lemma_walk_cursor(s.drop_last(), clock, marks_on, target);
        lemma_run_monotone(start(target), s.drop_last(), clock);
    }
}

/// One more operation: the walk's step.
pub proof fn lemma_walk_push(q: Seq<OpView>, op: OpView, clock: Option<Seq<ClockEntry>>, marks_on: bool, target: usize)
    ensures
        ({
            let w = walk(q, clock, marks_on, target);
            let vis = visible_at(op, clock);
            let c = step(w.cursor, elem_key(op), vis);
            walk(q.push(op), clock, marks_on, target) == if w.finished || (op.insert && done(w.cursor)) {
                Walk { finished: true, ..w }
            } else {
                Walk {
                    cursor: c,
                    found: if vis && done(c) { w.found.push(c.pos - 1) } else { w.found },
                    log: if marks_on && is_mark(op) { w.log.push(MarkEvent { id: op.id, action: op.action }) } else { w.log },
                    finished: false,
                }
            }
        }),
{
    assert(q.push(op).drop_last() =~= q);
}

/// Walking on after the walk has finished changes nothing.
pub proof fn lemma_walk_finished(a: Seq<OpView>, b: Seq<OpView>, clock: Option<Seq<ClockEntry>>, marks_on: bool, target: usize)
    requires
        walk(a, clock, marks_on, target).finished,
    ensures
        walk(a + b, clock, marks_on, target) == walk(a, clock, marks_on, target),
    decreases b.len(),
{
    if b.len() == 0 {
        assert(a + b =~= a);
    } else {
        assert((a + b).drop_last() =~= a + b.drop_last());
        lemma_walk_finished(a, b.drop_last(), clock, marks_on, target);
    }
}

/// Passing over a node that ends before the position is walking it element by element.
pub proof fn lemma_walk_skip(a: Seq<OpView>, b: Seq<OpView>, marks_on: bool, target: usize)
    requires
        a.len() + b.len() <= usize::MAX,
        !marks_on,
        !done(run(run(start(target), a, None), b, None)),
    ensures
        walk(a + b, None, marks_on, target) == (Walk { cursor: run(run(start(target), a, None), b, None), ..walk(a, None, marks_on, target) }),
{
    lemma_run_append(start(target), a, b, None);
    lemma_run_monotone(start(target), a, None);
    lemma_run_monotone(run(start(target), a, None), b, None);
    lemma_walk_cursor(a, None, marks_on, target);
    lemma_walk_cursor(a + b, None, marks_on, target);
    assert(walk(a + b, None, marks_on, target).log =~= walk(a, None, marks_on, target).log);
    assert(walk(a + b, None, marks_on, target).found =~= walk(a, None, marks_on, target).found);
}

/// The cursor count does not depend on the position looked for.
pub proof fn lemma_run_target(s: Seq<OpView>, clock: Option<Seq<ClockEntry>>, t: usize, u: usize)
    ensures
        run(start(t), s, clock) == (ListState { target: t, ..run(start(u), s, clock) }),
    decreases s.len(),
{
    if s.len() > 0 {
        lemma_run_target(s.drop_last(), clock, t, u);
    }
}

/// The walk for the element a valid bookmark names ends as the bookmark says.
pub proof fn lemma_shortcut(f: Seq<OpView>, b: LastInsert)
    requires
        bookmark_ok(f, b),
        f.len() < usize::MAX,
    ensures
        ({
            let w = walk(f, None, false, b.index);
            &&& w.cursor == (ListState { index: (b.index + 1) as usize, pos: (b.pos + 1) as usize, target: b.index, last_seen: Some(elem_key(f[b.pos as int])) })
            &&& w.found == seq![b.pos as int]
            &&& w.log.len() == 0
        }),
{
    let t = b.index;
    let p = b.pos as int;
    let a = f.take(p);
    let a1 = f.take(p + 1);
    lemma_run_target(a, None, t, 0);
    lemma_run_target(a1, None, t, 0);
    lemma_walk_cursor(a, None, false, t);
    lemma_walk_cursor(a1, None, false, t);
    lemma_run_monotone(start(t), a, None);
    assert(a1.drop_last() =~= a);
    assert(a1.last() == f[p]);
    let w1 = walk(a1, None, false, t);
    assert(w1.found =~= seq![p]);
    if p + 1 < f.len() {
        let a2 = f.take(p + 2);
        assert(a2.drop_last() =~= a1);
        assert(a2.last() == f[p + 1]);
        assert(walk(a2, None, false, t).finished);
        assert(f =~= a2 + f.skip(p + 2));
        lemma_walk_finished(a2, f.skip(p + 2), None, false, t);
    } else {
        assert(a1 =~= f);
    }
}

/// The mark events of a walk come from distinct operations of `s`.
pub proof fn lemma_walk_log(s: Seq<OpView>, clock: Option<Seq<ClockEntry>>, marks_on: bool, target: usize)
    requires
        forall|i: int, j: int| 0 <= i < j < s.len() ==> #[trigger] s[i].id != #[trigger] s[j].id,
    ensures
        distinct_ids(walk(s, clock, marks_on, target).log),
        forall|k: int| 0 <= k < walk(s, clock, marks_on, target).log.len() ==>
            exists|i: int| 0 <= i < s.len() && s[i].id == (#[trigger] walk(s, clock, marks_on, target).log[k]).id,
    decreases s.len(),
{
    if s.len() > 0 {
        let d = s.drop_last();
        assert forall|i: int, j: int| 0 <= i < j < d.len() implies #[trigger] d[i].id != #[trigger] d[j].id by {
            assert(d[i] == s[i] && d[j] == s[j]);
        }
        lemma_walk_log(d, clock, marks_on, target);
        let w0 = walk(d, clock, marks_on, target);
        let w = walk(s, clock, marks_on, target);
        assert forall|k: int| 0 <= k < w.log.len() implies exists|i: int| 0 <= i < s.len() && s[i].id == (#[trigger] w.log[k]).id by {
            if k < w0.log.len() {
                assert(w.log[k] == w0.log[k]);
                let i = choose|i: int| 0 <= i < d.len() && d[i].id == w0.log[k].id;
                assert(s[i] == d[i]);
            } else {
                assert(s[s.len() - 1].id == w.log[k].id);
            }
        }
        assert forall|x: int, y: int| 0 <= x < y < w.log.len() implies #[trigger] w.log[x].id != #[trigger] w.log[y].id by {
            if y >= w0.log.len() {
                assert(w.log[x] == w0.log[x]);
                let i = choose|i: int| 0 <= i < d.len() && d[i].id == w0.log[x].id;
                assert(s[i] == d[i]);
                assert(w.log[y].id == s[s.len() - 1].id);
            } else {
                assert(w.log[x] == w0.log[x] && w.log[y] == w0.log[y]);
            }
        }
    }
}

/// In a grouped sequence every operation counts under the key of an element.
pub proof fn lemma_grouped_keys(s: Seq<OpView>)
    requires
        grouped(s),
    ensures
        forall|i: int| 0 <= i < s.len() ==> #[trigger] elem_key(s[i]) is Elem && elem_id(s[i]) is Some,
{
    assert forall|i: int| 0 <= i < s.len() implies #[trigger] elem_key(s[i]) is Elem && elem_id(s[i]) is Some by {
        lemma_grouped_key(s, i);
    }
}

proof fn lemma_grouped_key(s: Seq<OpView>, i: int)
    requires
        grouped(s),
        0 <= i < s.len(),
    ensures
        elem_key(s[i]) is Elem && elem_id(s[i]) is Some,
    decreases i,
{
    if !s[i].insert {
        lemma_grouped_key(s, i - 1);
    }
}

/// The walk over a grouped sequence, once it reaches the position, has counted
/// exactly up to it, found an operation there, and still stands in that element.
proof fn lemma_walk_reaches(s: Seq<OpView>, clock: Option<Seq<ClockEntry>>, marks_on: bool, target: usize)
    requires
        grouped(s),
        s.len() <= usize::MAX,
    ensures
        ({
            let w = walk(s, clock, marks_on, target);
            &&& w.finished ==> done(w.cursor)
            &&& done(w.cursor) ==> w.cursor.index == target + 1 && w.found.len() > 0
            &&& (done(w.cursor) && !w.finished) ==> s.len() > 0 && w.cursor.last_seen == Some(elem_key(s.last()))
        }),
    decreases s.len(),
{
    lemma_walk_cursor(s, clock, marks_on, target);
    if s.len() > 0 {
        let d = s.drop_last();
        assert forall|i: int| 0 <= i < d.len() && !(#[trigger] d[i]).insert implies i > 0 && elem_key(d[i]) == elem_key(d[i - 1]) by {
            assert(d[i] == s[i]);
            assert(!s[i].insert);
            assert(d[i - 1] == s[i - 1]);
        }
        lemma_walk_reaches(d, clock, marks_on, target);
        lemma_walk_cursor(d, clock, marks_on, target);
        lemma_run_monotone(start(target), d, clock);
        let op = s.last();
        if !s[s.len() - 1].insert {
            assert(elem_key(s[s.len() - 1]) == elem_key(s[s.len() - 2]));
            assert(d.last() == s[s.len() - 2]);
        }
    }
}

/// A position before the end of the visible elements is found: at least one
/// operation is resolved there, the index reached is that position, and the
/// key names an element.
pub proof fn lemma_position_in_range(q: &Nth, tree: &OpTree, target: usize)
    requires
        tree.wf(),
        q.searched(tree, target),
        grouped(tree.ops()),
        target < vis_runs(tree.ops(), q.clock_view()),
    ensures
        q.ops@.len() > 0,
        index_of(q.idx.index) == target,
        key_of(q.found_ops(), q.idx.index) is Ok,
{
    let f = tree.ops();
    let cv = q.clock_view();
    let w = walk(f, cv, q.marks is Some, target);
    lemma_walk_reaches(f, cv, q.marks is Some, target);
    lemma_walk_cursor(f, cv, q.marks is Some, target);
    lemma_run_stats(start(target), f, cv);
    lemma_vis_shape(f, cv);
    lemma_grouped_keys(f);
    assert(q.found_ops()[0] == f[w.found[0]]);
}

/// A position at or past the end of the visible elements resolves nothing, and
/// the key fails with the last valid position (zero for an empty list).
pub proof fn lemma_position_out_of_range(q: &Nth, tree: &OpTree, target: usize)
    requires
        tree.wf(),
        q.searched(tree, target),
        target >= vis_runs(tree.ops(), q.clock_view()),
    ensures
        q.ops@.len() == 0,
        key_of(q.found_ops(), q.idx.index) == Err::<Key, NthError>(NthError::InvalidIndex(index_of(vis_runs(tree.ops(), q.clock_view()) as usize))),
{
    let f = tree.ops();
    let cv = q.clock_view();
    lemma_walk_cursor(f, cv, q.marks is Some, target);
    lemma_run_stats(start(target), f, cv);
    lemma_vis_shape(f, cv);
}

/// The count does not depend on the offset the cursor starts from.
proof fn lemma_run_pos(st: ListState, p: usize, s: Seq<OpView>, clock: Option<Seq<ClockEntry>>)
    ensures
        run(ListState { pos: p, ..st }, s, clock).index == run(st, s, clock).index,
        run(ListState { pos: p, ..st }, s, clock).last_seen == run(st, s, clock).last_seen,
    decreases s.len(),
{
    if s.len() > 0 {
        lemma_run_pos(st, p, s.drop_last(), clock);
    }
}

/// An operation that the snapshot excludes is not counted: removing it from
/// the sequence leaves the number of visible elements as it was, so the
/// elements after it move down by one position relative to where they would be
/// were it visible.
pub proof fn lemma_excluded_not_counted(a: Seq<OpView>, op: OpView, b: Seq<OpView>, clock: Seq<ClockEntry>)
    requires
        !crate::types::covers(clock, op.id),
        a.len() + b.len() + 1 < usize::MAX,
    ensures
        !visible_at(op, Some(clock)),
        vis_runs(a.push(op) + b, Some(clock)) == vis_runs(a + b, Some(clock)),
{
    let c = Some(clock);
    lemma_run_stats(start(0), a.push(op) + b, c);
    lemma_run_stats(start(0), a + b, c);
    lemma_vis_shape(a.push(op) + b, c);
    lemma_vis_shape(a + b, c);
    lemma_run_append(start(0), a.push(op), b, c);
    lemma_run_append(start(0), a, b, c);
    assert(a.push(op).drop_last() =~= a);
    let r = run(start(0), a, c);
    lemma_run_pos(r, (r.pos + 1) as usize, b, c);
}

/// Offset of the insertion that starts the element of the operation at `k`.
pub open spec fn group_start(s: Seq<OpView>, k: int) -> int
    decreases k,
{
    if k <= 0 || s[k].insert {
        k
    } else {
        group_start(s, k - 1)
    }
}

proof fn lemma_group_start(s: Seq<OpView>, k: int)
    requires
        grouped(s),
        0 <= k < s.len(),
    ensures
        0 <= group_start(s, k) <= k,
        s[group_start(s, k)].insert,
        elem_key(s[k]) == Key::Elem(s[group_start(s, k)].id),
        forall|i: int| group_start(s, k) <= i <= k ==> #[trigger] group_start(s, i) == group_start(s, k),
    decreases k,
{
    if !s[k].insert {
        lemma_group_start(s, k - 1);
    }
}

proof fn lemma_group_start_prefix(s: Seq<OpView>, n: int, k: int)
    requires
        0 <= k < n <= s.len(),
    ensures
        group_start(s.take(n), k) == group_start(s, k),
    decreases k,
{
    if k > 0 && !s[k].insert {
        lemma_group_start_prefix(s, n, k - 1);
    }
}

/// Operations of a grouped sequence with distinct identifiers that share a key
/// belong to one element, and so does everything between them.
proof fn lemma_same_key(s: Seq<OpView>, a: int, b: int)
    requires
        grouped(s),
        unique_ids(s),
        0 <= a <= b < s.len(),
        elem_key(s[a]) == elem_key(s[b]),
    ensures
        forall|i: int| a <= i <= b ==> #[trigger] elem_key(s[i]) == elem_key(s[b]),
{
    lemma_group_start(s, a);
    lemma_group_start(s, b);
    let g = group_start(s, b);
    assert(group_start(s, a) == g);
    assert forall|i: int| a <= i <= b implies #[trigger] elem_key(s[i]) == elem_key(s[b]) by {
        lemma_group_start(s, i);
        assert(group_start(s, i) == g);
    }
}

/// After a visible operation with key `k` followed only by operations that are
/// invisible or have key `k`, the last key seen is `k`.
proof fn lemma_last_seen(st: ListState, s: Seq<OpView>, clock: Option<Seq<ClockEntry>>, at: int, k: Key)
    requires
        0 <= at < s.len(),
        visible_at(s[at], clock),
        elem_key(s[at]) == k,
        forall|i: int| at <= i < s.len() && visible_at(s[i], clock) ==> #[trigger] elem_key(s[i]) == k,
    ensures
        run(st, s, clock).last_seen == Some(k),
    decreases s.len(),
{
    if at < s.len() - 1 {
        let d = s.drop_last();
        assert forall|i: int| at <= i < d.len() && visible_at(d[i], clock) implies #[trigger] elem_key(d[i]) == k by {
            assert(d[i] == s[i]);
        }
        lemma_last_seen(st, d, clock, at, k);
    }
}

/// Once the walk reaches the position it holds every visible operation of the
/// element found, and nothing after it belongs to that element.
proof fn lemma_walk_collects(s: Seq<OpView>, clock: Option<Seq<ClockEntry>>, marks_on: bool, target: usize)
    requires
        grouped(s),
        unique_ids(s),
        s.len() <= usize::MAX,
    ensures
        ({
            let w = walk(s, clock, marks_on, target);
            done(w.cursor) ==> {
                &&& w.found.len() > 0
                &&& forall|k: int| 0 <= k < s.len() && visible_at(s[k], clock) && #[trigger] elem_key(s[k]) == elem_key(s[w.found[0]]) ==> w.found.contains(k)
                &&& w.finished ==> group_start(s, s.len() - 1) > w.found[0]
            }
        }),
    decreases s.len(),
{
    lemma_walk_reaches(s, clock, marks_on, target);
    lemma_walk_cursor(s, clock, marks_on, target);
    if s.len() > 0 {
        let n = s.len() as int;
        let d = s.drop_last();
        assert forall|i: int| 0 <= i < d.len() && !(#[trigger] d[i]).insert implies i > 0 && elem_key(d[i]) == elem_key(d[i - 1]) by {
            assert(d[i] == s[i]);
            assert(!s[i].insert);
            assert(d[i - 1] == s[i - 1]);
        }
        assert forall|i: int, j: int| 0 <= i < j < d.len() implies #[trigger] d[i].id != #[trigger] d[j].id by {
            assert(d[i] == s[i] && d[j] == s[j]);
        }
        lemma_walk_collects(d, clock, marks_on, target);
        lemma_walk_reaches(d, clock, marks_on, target);
        lemma_walk_cursor(d, clock, marks_on, target);
        lemma_run_monotone(start(target), d, clock);
        lemma_walk_push(d, s.last(), clock, marks_on, target);
        assert(s =~= d.push(s.last()));
        let w0 = walk(d, clock, marks_on, target);
        let w = walk(s, clock, marks_on, target);
        lemma_group_start(s, n - 1);
        if done(w.cursor) {
            if done(w0.cursor) {
                let p0 = w0.found[0];
                assert(w.found[0] == p0);
                assert(s[p0] == d[p0]);
                lemma_group_start(s, p0);
                if n >= 2 {
                    lemma_group_start_prefix(s, n - 1, n - 2);
                    lemma_group_start(s, n - 2);
                }
                assert forall|k: int| 0 <= k < s.len() && visible_at(s[k], clock) && #[trigger] elem_key(s[k]) == elem_key(s[w.found[0]]) implies w.found.contains(k) by {
                    if k < n - 1 {
                        assert(s[k] == d[k]);
                        assert(w0.found.contains(k));
                        let x = choose|x: int| 0 <= x < w0.found.len() && w0.found[x] == k;
                        assert(w.found[x] == k);
                    } else if w.finished {
                        assert(group_start(s, n - 1) > p0);
                        assert(s[group_start(s, n - 1)].id != s[group_start(s, p0)].id);
                    } else {
                        assert(!s[n - 1].insert);
                        assert(elem_key(s[n - 1]) == elem_key(s[n - 2]));
                        assert(d.last() == s[n - 2]);
                        assert(w.found.last() == n - 1);
                    }
                }
            } else {
                assert(w.found =~= seq![n - 1]);
                assert forall|k: int| 0 <= k < s.len() && visible_at(s[k], clock) && #[trigger] elem_key(s[k]) == elem_key(s[w.found[0]]) implies w.found.contains(k) by {
                    if k < n - 1 {
                        lemma_same_key(s, k, n - 1);
                        assert forall|i: int| k <= i < d.len() && visible_at(d[i], clock) implies #[trigger] elem_key(d[i]) == elem_key(s[n - 1]) by {
                            assert(d[i] == s[i]);
                            assert(elem_key(s[i]) == elem_key(s[n - 1]));
                        }
                        assert(d[k] == s[k]);
                        lemma_last_seen(start(target), d, clock, k, elem_key(s[n - 1]));
                        assert(false);
                    } else {
                        assert(w.found[0] == k);
                    }
                }
            }
        }
    }
}

proof fn lemma_walk_conflicts(f: Seq<OpView>, cv: Option<Seq<ClockEntry>>, mo: bool, target: usize)
    requires
        grouped(f),
        unique_ids(f),
        f.len() < usize::MAX,
        target < vis_runs(f, cv),
    ensures
        walk(f, cv, mo, target).found.len() > 0,
        forall|k: int| 0 <= k < f.len() && visible_at(f[k], cv) && #[trigger] elem_key(f[k]) == elem_key(f[walk(f, cv, mo, target).found[0]])
            ==> walk(f, cv, mo, target).found.contains(k),
{
    lemma_walk_reaches(f, cv, mo, target);
    lemma_walk_cursor(f, cv, mo, target);
    lemma_run_stats(start(target), f, cv);
    lemma_vis_shape(f, cv);
    lemma_walk_collects(f, cv, mo, target);
}

/// Every visible operation of the element at the position is resolved: values
/// written concurrently to one element all come back, however the tree's nodes
/// divide the operations.
pub proof fn lemma_conflicts_collected(q: &Nth, tree: &OpTree, target: usize)
    requires
        tree.wf(),
        q.searched(tree, target),
        grouped(tree.ops()),
        target < vis_runs(tree.ops(), q.clock_view()),
    ensures
        q.ops_pos@.len() > 0,
        forall|k: int| 0 <= k < tree.ops().len() && visible_at(tree.ops()[k], q.clock_view())
            && #[trigger] elem_key(tree.ops()[k]) == elem_key(tree.ops()[q.ops_pos@[0] as int])
            ==> q.ops_pos@.contains(k as usize),
{
    let f = tree.ops();
    let cv = q.clock_view();
    let w = walk(f, cv, q.marks is Some, target);
    lemma_walk_conflicts(f, cv, q.marks is Some, target);
    assert(q.ops_pos@[0] as int == w.found[0]);
    assert forall|k: int| 0 <= k < f.len() && visible_at(f[k], cv) && #[trigger] elem_key(f[k]) == elem_key(f[q.ops_pos@[0] as int])
        implies q.ops_pos@.contains(k as usize) by {
        assert(w.found.contains(k));
        let x = choose|x: int| 0 <= x < w.found.len() && w.found[x] == k;
        assert(q.ops_pos@[x] == k);
    }
}

} // verus!
