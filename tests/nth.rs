use nth_query::list_state::ListState;
use nth_query::marks::{MarkEvent, MarkMap};
use nth_query::nth::{Nth, NthError, QueryResult};
use nth_query::op_tree::{LastInsert, OpTree, OpTreeNode};
use nth_query::types::{Clock, ClockEntry, Key, MarkData, Op, OpAction, OpId};

fn id(counter: u64, actor: u64) -> OpId {
    OpId::new(counter, actor)
}

fn ins(counter: u64, actor: u64, succ: Vec<OpId>) -> Op {
    Op { id: id(counter, actor), insert: true, key: Key::MapKey(0), action: OpAction::Put(counter), succ }
}

fn set(counter: u64, actor: u64, elem: OpId, succ: Vec<OpId>) -> Op {
    Op { id: id(counter, actor), insert: false, key: Key::Elem(elem), action: OpAction::Put(counter), succ }
}

fn mark(counter: u64, actor: u64, action: OpAction) -> Op {
    Op { id: id(counter, actor), insert: true, key: Key::MapKey(0), action, succ: vec![] }
}

fn tree(nodes: Vec<Vec<Op>>) -> OpTree {
    OpTree::new(nodes.into_iter().map(OpTreeNode::new).collect()).expect("identifiers are unique")
}

fn clock(entries: Vec<(u64, u64)>) -> Clock {
    Clock { entries: entries.into_iter().map(|(actor, max_op)| ClockEntry { actor, max_op }).collect() }
}

fn query<'a>(t: &'a OpTree, target: usize, c: Option<Clock>) -> Nth<'a> {
    let mut q = Nth::new(target, c);
    q.search(t);
    q
}

fn xyz() -> OpTree {
    tree(vec![vec![ins(1, 1, vec![]), ins(2, 1, vec![]), ins(3, 1, vec![])]])
}

#[test]
fn resolves_middle_element() {
    let t = xyz();
    let q = query(&t, 1, None);
    assert_eq!(q.index(), 1);
    assert_eq!(q.key(), Ok(Key::Elem(id(2, 1))));
    assert_eq!(q.ops.len(), 1);
    assert_eq!(q.ops[0].id, id(2, 1));
    assert_eq!(q.ops_pos, vec![1]);
}

#[test]
fn past_end_is_invalid_index() {
    let t = xyz();
    let q = query(&t, 5, None);
    assert!(q.ops.is_empty());
    assert_eq!(q.key(), Err(NthError::InvalidIndex(2)));
}

#[test]
fn empty_list_is_invalid_index_zero() {
    let t = tree(vec![]);
    let q = query(&t, 0, None);
    assert_eq!(q.key(), Err(NthError::InvalidIndex(0)));
    assert_eq!(q.index(), 0);
    assert_eq!(q.pos(), 0);
}

#[test]
fn every_position_in_range_is_found() {
    let t = tree(vec![
        vec![ins(1, 1, vec![]), ins(2, 1, vec![id(9, 1)])],
        vec![ins(3, 1, vec![]), ins(4, 1, vec![])],
        vec![ins(5, 1, vec![])],
    ]);
    let keys = [id(1, 1), id(3, 1), id(4, 1), id(5, 1)];
    for (n, k) in keys.iter().enumerate() {
        let q = query(&t, n, None);
        assert!(!q.ops.is_empty());
        assert_eq!(q.index(), n);
        assert_eq!(q.key(), Ok(Key::Elem(*k)));
    }
    let q = query(&t, 4, None);
    assert_eq!(q.key(), Err(NthError::InvalidIndex(3)));
}

#[test]
fn tombstone_and_snapshot() {
    let t = tree(vec![vec![ins(1, 1, vec![]), ins(2, 1, vec![id(3, 1)]), ins(4, 1, vec![])]]);
    let now = query(&t, 1, None);
    assert_eq!(now.key(), Ok(Key::Elem(id(4, 1))));
    let before = query(&t, 1, Some(clock(vec![(1, 2)])));
    assert_eq!(before.key(), Ok(Key::Elem(id(2, 1))));
    let past_end = query(&t, 2, Some(clock(vec![(1, 2)])));
    assert_eq!(past_end.key(), Err(NthError::InvalidIndex(1)));
}

#[test]
fn snapshot_excluding_actor_shifts_positions_down() {
    let t = tree(vec![vec![ins(1, 1, vec![]), ins(2, 2, vec![]), ins(3, 1, vec![])]]);
    let now = query(&t, 1, None);
    assert_eq!(now.key(), Ok(Key::Elem(id(2, 2))));
    let c = Some(clock(vec![(2, 1)]));
    let before = query(&t, 1, c);
    assert_eq!(before.key(), Ok(Key::Elem(id(3, 1))));
    let gone = query(&t, 2, Some(clock(vec![(2, 1)])));
    assert_eq!(gone.key(), Err(NthError::InvalidIndex(1)));
}

#[test]
fn concurrent_values_are_both_returned() {
    let e = id(1, 1);
    let ops = vec![
        ins(1, 1, vec![id(2, 1), id(2, 2)]),
        set(2, 2, e, vec![]),
        set(2, 1, e, vec![]),
        ins(3, 1, vec![]),
    ];
    let t = tree(vec![ops]);
    let q = query(&t, 0, None);
    assert_eq!(q.ops.len(), 2);
    assert_eq!(q.ops_pos, vec![1, 2]);
    assert_eq!(q.key(), Ok(Key::Elem(e)));
    assert_eq!(q.pred(), vec![id(2, 1), id(2, 2)]);
    let next = query(&t, 1, None);
    assert_eq!(next.key(), Ok(Key::Elem(id(3, 1))));
}

#[test]
fn concurrent_values_split_across_nodes() {
    let e = id(5, 1);
    let t = tree(vec![
        vec![ins(1, 1, vec![]), ins(2, 1, vec![])],
        vec![ins(5, 1, vec![id(6, 1), id(6, 2)]), set(6, 2, e, vec![])],
        vec![set(6, 1, e, vec![]), ins(7, 1, vec![])],
    ]);
    let q = query(&t, 2, None);
    assert_eq!(q.ops_pos, vec![3, 4]);
    assert_eq!(q.index(), 2);
    let snapshot = query(&t, 2, Some(clock(vec![(1, 100), (2, 100)])));
    assert_eq!(snapshot.ops_pos, vec![3, 4]);
}

#[test]
fn shortcut_matches_full_walk() {
    let plain = xyz();
    let full = query(&plain, 2, None);
    let mut t = xyz();
    assert!(t.set_last_insert(LastInsert { index: 2, pos: 2 }));
    let mut q = Nth::new(2, None);
    assert!(q.can_shortcut_search(&t));
    assert_eq!(q.index(), full.index());
    assert_eq!(q.pos(), full.pos());
    assert_eq!(q.key(), full.key());
    assert_eq!(q.ops_pos, full.ops_pos);
    assert_eq!(q.idx, full.idx);
    assert!(q.equiv(&full));
}

#[test]
fn shortcut_declines_other_targets_and_snapshots() {
    let mut t = xyz();
    assert!(t.set_last_insert(LastInsert { index: 2, pos: 2 }));
    let mut q = Nth::new(1, None);
    assert!(!q.can_shortcut_search(&t));
    let mut c = Nth::new(2, Some(clock(vec![])));
    assert!(!c.can_shortcut_search(&t));
    let mut m = Nth::new(2, None).with_marks();
    assert!(!m.can_shortcut_search(&t));
    let mut s = Nth::new(2, None);
    s.search(&t);
    assert_eq!(s.key(), Ok(Key::Elem(id(3, 1))));
}

#[test]
fn node_is_skipped_only_before_target() {
    let node = OpTreeNode::new(vec![ins(1, 1, vec![]), ins(2, 1, vec![])]);
    assert_eq!(node.vis_runs, 2);
    let mut q = Nth::new(5, None);
    assert_eq!(q.query_node(&node), QueryResult::Skip);
    assert_eq!(q.idx, ListState { index: 2, pos: 2, target: 5, last_seen: Some(Key::Elem(id(2, 1))) });
    let mut r = Nth::new(1, None);
    assert_eq!(r.query_node(&node), QueryResult::Descend);
    assert_eq!(r.pos(), 0);
    let mut s = Nth::new(5, Some(clock(vec![])));
    assert_eq!(s.query_node(&node), QueryResult::Descend);
}

#[test]
fn insertion_after_target_finishes() {
    let a = ins(1, 1, vec![]);
    let b = ins(2, 1, vec![]);
    let mut q = Nth::new(0, None);
    assert_eq!(q.query_element(&a), QueryResult::Next);
    assert_eq!(q.ops.len(), 1);
    assert_eq!(q.query_element(&b), QueryResult::Finish);
    assert_eq!(q.ops.len(), 1);
    assert_eq!(q.pos(), 1);
}

#[test]
fn equiv_compares_index_and_key() {
    let t = xyz();
    let a = query(&t, 1, None);
    let b = query(&t, 1, None);
    let c = query(&t, 2, None);
    assert!(a.equiv(&b));
    assert!(!a.equiv(&c));
}

#[test]
fn node_statistics() {
    let e = id(1, 1);
    let node = OpTreeNode::new(vec![
        ins(1, 1, vec![id(2, 1)]),
        set(2, 1, e, vec![]),
        ins(3, 1, vec![id(4, 1)]),
        ins(5, 1, vec![]),
    ]);
    assert_eq!(node.vis_runs, 2);
    assert_eq!(node.first_vis, Some(Key::Elem(e)));
    assert_eq!(node.last_vis, Some(Key::Elem(id(5, 1))));
}

#[test]
fn clock_coverage_and_visibility() {
    let c = clock(vec![(1, 3)]);
    assert!(c.covers(&id(3, 1)));
    assert!(!c.covers(&id(4, 1)));
    assert!(c.covers(&id(100, 2)));
    let op = ins(2, 1, vec![id(4, 1)]);
    assert!(!op.visible());
    assert!(op.visible_at(Some(&c)));
    assert!(!op.visible_at(Some(&clock(vec![(1, 4)]))));
    let m = mark(1, 1, OpAction::MarkEnd);
    assert!(!m.visible());
}

fn bold(counter: u64, actor: u64, value: Option<u64>) -> Op {
    mark(counter, actor, OpAction::MarkBegin(MarkData { name: 1, value }))
}

#[test]
fn marks_in_force_at_position() {
    let t = tree(vec![vec![
        bold(1, 1, Some(7)),
        ins(5, 1, vec![]),
        mark(2, 1, OpAction::MarkEnd),
        ins(6, 1, vec![]),
    ]]);
    let mut q = Nth::new(0, None).with_marks();
    q.search(&t);
    let set = q.marks().expect("bold is in force");
    assert_eq!(set.marks, vec![(1, 7)]);
    let mut r = Nth::new(1, None).with_marks();
    r.search(&t);
    assert!(r.marks().is_none());
    assert_eq!(r.key(), Ok(Key::Elem(id(6, 1))));
    let plain = query(&t, 0, None);
    assert!(plain.marks().is_none());
}

#[test]
fn concurrent_marks_resolve_by_identifier_in_any_order() {
    let first = vec![bold(1, 1, Some(1)), bold(1, 2, Some(2)), ins(9, 1, vec![])];
    let second = vec![bold(1, 2, Some(2)), bold(1, 1, Some(1)), ins(9, 1, vec![])];
    let t1 = tree(vec![first]);
    let t2 = tree(vec![second]);
    let mut a = Nth::new(0, None).with_marks();
    a.search(&t1);
    let mut b = Nth::new(0, None).with_marks();
    b.search(&t2);
    assert_eq!(a.marks().unwrap().marks, vec![(1, 2)]);
    assert_eq!(b.marks().unwrap().marks, vec![(1, 2)]);
}

#[test]
fn later_unmark_clears_attribute() {
    let mut m = MarkMap::new();
    m.process(id(1, 1), OpAction::MarkBegin(MarkData { name: 1, value: Some(3) }));
    m.process(id(1, 2), OpAction::MarkBegin(MarkData { name: 2, value: Some(4) }));
    m.process(id(5, 1), OpAction::MarkBegin(MarkData { name: 1, value: None }));
    m.process(id(6, 1), OpAction::Put(0));
    assert_eq!(m.events.len(), 3);
    assert_eq!(m.events[2], MarkEvent { id: id(5, 1), action: OpAction::MarkBegin(MarkData { name: 1, value: None }) });
    assert_eq!(m.merged(), vec![(2, 4)]);
}

#[test]
fn pred_sorts_and_dedups() {
    let e = id(1, 1);
    let t = tree(vec![vec![
        ins(1, 1, vec![id(3, 2), id(3, 1), id(2, 5)]),
        set(3, 2, e, vec![]),
        set(2, 5, e, vec![]),
        set(3, 1, e, vec![]),
    ]]);
    let q = query(&t, 0, None);
    assert_eq!(q.pred(), vec![id(2, 5), id(3, 1), id(3, 2)]);
    assert!(id(2, 5).lt(&id(3, 1)));
    assert!(id(3, 1).lt(&id(3, 2)));
}

#[test]
fn tree_rejects_duplicate_identifiers() {
    let dup = vec![OpTreeNode::new(vec![ins(1, 1, vec![])]), OpTreeNode::new(vec![ins(2, 1, vec![]), ins(1, 1, vec![])])];
    assert!(OpTree::new(dup).is_none());
    let ok = OpTree::new(vec![OpTreeNode::new(vec![ins(1, 1, vec![]), ins(1, 2, vec![])])]).unwrap();
    assert!(ok.last_insert.is_none());
    assert_eq!(ok.get(1).map(|o| o.id), Some(id(1, 2)));
    assert!(ok.get(2).is_none());
}

#[test]
fn bookmark_must_name_last_counted_element() {
    let e = id(2, 1);
    let mut t = tree(vec![
        vec![ins(1, 1, vec![]), ins(2, 1, vec![id(3, 1)])],
        vec![set(3, 1, e, vec![]), ins(4, 1, vec![id(5, 1)])],
    ]);
    assert!(!t.set_last_insert(LastInsert { index: 1, pos: 1 }));
    assert!(!t.set_last_insert(LastInsert { index: 2, pos: 3 }));
    assert!(!t.set_last_insert(LastInsert { index: 0, pos: 9 }));
    assert!(t.last_insert.is_none());
    let mut u = tree(vec![vec![ins(1, 1, vec![])], vec![ins(2, 1, vec![id(3, 1)]), ins(4, 1, vec![])]]);
    assert!(!u.set_last_insert(LastInsert { index: 2, pos: 2 }));
    assert!(u.set_last_insert(LastInsert { index: 1, pos: 2 }));
    let mut q = Nth::new(1, None);
    assert!(q.can_shortcut_search(&u));
    assert_eq!(q.key(), Ok(Key::Elem(id(4, 1))));
    assert_eq!(q.pos(), 3);
}
