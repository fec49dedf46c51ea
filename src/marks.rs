//! Formatting marks: the log of mark operations met in document order, and
//! the overlay of attributes that are active at the end of it.
use vstd::prelude::*;
use crate::types::{OpId, OpAction, MarkData, id_lt};

verus! {

/// A mark operation as it was met: its identifier and what it does.
#[derive(Clone, Copy, Debug, PartialEq, Eq, Structural)]
pub struct MarkEvent {
    pub id: OpId,
    pub action: OpAction,
}

/// The mark operations met so far, in the order they were met.
#[derive(Debug)]
pub struct MarkMap {
    pub events: Vec<MarkEvent>,
}

/// The attributes in force at a position: pairs of attribute name and value,
/// one per name.
#[derive(Debug)]
pub struct MarkSet {
    pub marks: Vec<(u64, u64)>,
}

pub open spec fn begin_data(a: OpAction) -> MarkData {
    match a {
        OpAction::MarkBegin(d) => d,
        _ => MarkData { name: 0, value: None },
    }
}

/// An end with identifier `end` closes the begin with identifier `begin`.
pub open spec fn closes(end: OpId, begin: OpId) -> bool {
    end.actor == begin.actor && end.counter == begin.counter + 1
}

/// `e` opens a span that no event of `s` closes.
pub open spec fn active(s: Set<MarkEvent>, e: MarkEvent) -> bool {
    &&& e.action is MarkBegin
    &&& !exists|f: MarkEvent| #[trigger] s.contains(f) && f.action is MarkEnd && closes(f.id, e.id)
}

/// `e` is the active span of attribute `name` with the greatest identifier.
pub open spec fn wins(s: Set<MarkEvent>, name: u64, e: MarkEvent) -> bool {
    &&& s.contains(e)
    &&& active(s, e)
    &&& begin_data(e.action).name == name
    &&& forall|f: MarkEvent| #[trigger] s.contains(f) && active(s, f) && begin_data(f.action).name == name ==> !id_lt(e.id, f.id)
}

/// The attributes in force given the mark events `s`: each name mapped to the
/// value of its winning span, unless that span clears the attribute.
pub open spec fn overlay(s: Set<MarkEvent>) -> Map<u64, u64> {
    Map::new(
        |name: u64| exists|e: MarkEvent| wins(s, name, e) && begin_data(e.action).value is Some,
        |name: u64| begin_data((choose|e: MarkEvent| wins(s, name, e) && begin_data(e.action).value is Some).action).value->Some_0,
    )
}

/// No two events share an identifier.
pub open spec fn distinct_ids(s: Seq<MarkEvent>) -> bool {
    forall|i: int, j: int| 0 <= i < j < s.len() ==> #[trigger] s[i].id != #[trigger] s[j].id
}

/// `x` is the name and value of a winning span among the first `upto` events of `ev`.
pub open spec fn won_by(s: Set<MarkEvent>, ev: Seq<MarkEvent>, upto: int, x: (u64, u64)) -> bool {
    exists|k: int| 0 <= k < upto && #[trigger] wins(s, x.0, ev[k]) && begin_data(ev[k].action).value == Some(x.1)
}

/// `r` lists the map `m`, one pair per key.
pub open spec fn lists(r: Seq<(u64, u64)>, m: Map<u64, u64>) -> bool {
    &&& forall|i: int, j: int| 0 <= i < j < r.len() ==> #[trigger] r[i].0 != #[trigger] r[j].0
    &&& forall|n: u64, v: u64| r.contains((n, v)) <==> (m.contains_key(n) && m[n] == v)
}

impl View for MarkMap {
    type V = Seq<MarkEvent>;

    open spec fn view(&self) -> Seq<MarkEvent> {
        self.events@
    }
}

impl View for MarkSet {
    type V = Seq<(u64, u64)>;

    open spec fn view(&self) -> Seq<(u64, u64)> {
        self.marks@
    }
}

impl MarkMap {
    pub fn new() -> (r: MarkMap)
        ensures
            r@ == Seq::<MarkEvent>::empty(),
    {
        MarkMap { events: Vec::new() }
    }

    /// Records `action` of the operation `id` if it is a mark.
    pub fn process(&mut self, id: OpId, action: OpAction)
        ensures
            final(self)@ == (if action is Put { old(self)@ } else { old(self)@.push(MarkEvent { id, action }) }),
    {
        match action {
            OpAction::Put(_) => {},
            _ => self.events.push(MarkEvent { id, action }),
        }
    }

    /// The attributes in force after the recorded events, listed once each.
    pub fn merged(&self) -> (r: Vec<(u64, u64)>)
        requires
            distinct_ids(self@),
        ensures
            lists(r@, overlay(self@.to_set())),
    {
        let ghost s = self@.to_set();
        let n = self.events.len();
        let mut act: Vec<bool> = Vec::new();
        let mut i: usize = 0;
        while i < n
            invariant
                n == self.events@.len(),
                s == self@.to_set(),
                i <= n,
                act@.len() == i,
                forall|k: int| 0 <= k < i ==> act@[k] == active(s, #[trigger] self.events@[k]),
            decreases n - i,
        {
            let e = self.events[i];
            let mut open = match e.action {
                OpAction::MarkBegin(_) => true,
                _ => false,
            };
            let mut j: usize = 0;
            while j < n && open
                invariant
                    n == self.events@.len(),
                    s == self@.to_set(),
                    j <= n,
                    e == self.events@[i as int],
                    open ==> e.action is MarkBegin,
                    open ==> forall|k: int| 0 <= k < j ==> !((#[trigger] self.events@[k]).action is MarkEnd && closes(self.events@[k].id, e.id)),
                    !open ==> !active(s, e),
                decreases n - j,
            {
                let f = self.events[j];
                let is_end = match f.action {
                    OpAction::MarkEnd => true,
                    _ => false,
                };
                if is_end && f.id.actor == e.id.actor && f.id.counter > 0 && f.id.counter - 1 == e.id.counter {
                    assert(s.contains(self.events@[j as int]));
                    open = false;
                }
                j += 1;
            }
            if open {
                assert forall|f: MarkEvent| #[trigger] s.contains(f) implies !(f.action is MarkEnd && closes(f.id, e.id)) by {
                    let k = choose|k: int| 0 <= k < n && self.events@[k] == f;
                    assert(self.events@[k] == f);
                }
            }
            act.push(open);
            i += 1;
        }
        let mut r: Vec<(u64, u64)> = Vec::new();
        let mut i: usize = 0;
        while i < n
            invariant
                n == self.events@.len(),
                s == self@.to_set(),
                distinct_ids(self@),
                i <= n,
                act@.len() == n,
                forall|k: int| 0 <= k < n ==> act@[k] == active(s, #[trigger] self.events@[k]),
                forall|p: int| 0 <= p < r@.len() ==> won_by(s, self.events@, i as int, #[trigger] r@[p]),
                forall|k: int| 0 <= k < i && wins(s, begin_data(self.events@[k].action).name, #[trigger] self.events@[k]) && begin_data(self.events@[k].action).value is Some
                    ==> r@.contains((begin_data(self.events@[k].action).name, begin_data(self.events@[k].action).value->Some_0)),
                forall|p: int, q: int| 0 <= p < q < r@.len() ==> #[trigger] r@[p].0 != #[trigger] r@[q].0,
            decreases n - i,
        {
            let e = self.events[i];
            let ghost r0 = r@;
            if act[i] {
                let d = match e.action {
                    OpAction::MarkBegin(d) => d,
                    _ => MarkData { name: 0, value: None },
                };
                let mut best = true;
                let mut j: usize = 0;
                while j < n && best
                    invariant
                        n == self.events@.len(),
                        s == self@.to_set(),
                        j <= n,
                        act@.len() == n,
                        forall|k: int| 0 <= k < n ==> act@[k] == active(s, #[trigger] self.events@[k]),
                        i < n,
                        e == self.events@[i as int],
                        d == begin_data(e.action),
                        best ==> forall|k: int| 0 <= k < j && active(s, #[trigger] self.events@[k]) && begin_data(self.events@[k].action).name == d.name ==> !id_lt(e.id, self.events@[k].id),
                        !best ==> !wins(s, d.name, e),
                    decreases n - j,
                {
                    let f = self.events[j];
                    if act[j] {
                        let fname = match f.action {
                            OpAction::MarkBegin(fd) => fd.name,
                            _ => 0,
                        };
                        if fname == d.name && e.id.lt(&f.id) {
                            assert(s.contains(self.events@[j as int]));
                            best = false;
                        }
                    }
                    j += 1;
                }
                if best {
                    assert(wins(s, d.name, e)) by {
                        assert(s.contains(self.events@[i as int]));
                        assert forall|f: MarkEvent| #[trigger] s.contains(f) && active(s, f) && begin_data(f.action).name == d.name implies !id_lt(e.id, f.id) by {
                            let k = choose|k: int| 0 <= k < n && self.events@[k] == f;
                            assert(self.events@[k] == f);
                        }
                    }
                    match d.value {
                        Some(v) => {
                            proof {
                                assert forall|p: int| 0 <= p < r@.len() implies r@[p].0 != d.name by {
                                    assert(won_by(s, self.events@, i as int, r@[p]));
                                    let k = choose|k: int| 0 <= k < i && #[trigger] wins(s, r@[p].0, self.events@[k]) && begin_data(self.events@[k].action).value == Some(r@[p].1);
                                    if r@[p].0 == d.name {
                                        assert(!id_lt(e.id, self.events@[k].id));
                                        assert(!id_lt(self.events@[k].id, e.id));
                                        assert(self.events@[k].id == e.id);
                                    }
                                }
                            }
                            r.push((d.name, v));
                            assert(r@[r@.len() - 1] == (d.name, v));
                        },
                        None => {},
                    }
                }
            }
            proof {
                assert forall|p: int| 0 <= p < r@.len() implies won_by(s, self.events@, i + 1, #[trigger] r@[p]) by {
                    if p < r0.len() {
                        assert(r@[p] == r0[p]);
                        assert(won_by(s, self.events@, i as int, r0[p]));
                        let k = choose|k: int| 0 <= k < i && #[trigger] wins(s, r0[p].0, self.events@[k]) && begin_data(self.events@[k].action).value == Some(r0[p].1);
                        assert(wins(s, r@[p].0, self.events@[k]) && begin_data(self.events@[k].action).value == Some(r@[p].1));
                    } else {
                        assert(wins(s, r@[p].0, self.events@[i as int]));
                    }
                }
                assert forall|k: int| 0 <= k < i + 1 && wins(s, begin_data(self.events@[k].action).name, #[trigger] self.events@[k]) && begin_data(self.events@[k].action).value is Some
                    implies r@.contains((begin_data(self.events@[k].action).name, begin_data(self.events@[k].action).value->Some_0)) by {
                    if k < i {
                        let x = (begin_data(self.events@[k].action).name, begin_data(self.events@[k].action).value->Some_0);
                        assert(r0.contains(x));
                        let p = choose|p: int| 0 <= p < r0.len() && r0[p] == x;
                        assert(r@[p] == x);
                    } else {
                        assert(r@[r@.len() - 1] == (begin_data(self.events@[k].action).name, begin_data(self.events@[k].action).value->Some_0));
                    }
                }
            }
            i += 1;
        }
        proof {
            let m = overlay(s);
            assert forall|nm: u64, v: u64| r@.contains((nm, v)) <==> (m.contains_key(nm) && m[nm] == v) by {
                if r@.contains((nm, v)) {
                    let p = choose|p: int| 0 <= p < r@.len() && r@[p] == (nm, v);
                    assert(won_by(s, self.events@, n as int, r@[p]));
                    let k = choose|k: int| 0 <= k < n && #[trigger] wins(s, r@[p].0, self.events@[k]) && begin_data(self.events@[k].action).value == Some(r@[p].1);
                    assert(wins(s, nm, self.events@[k]) && begin_data(self.events@[k].action).value is Some);
                    let c = choose|c: MarkEvent| wins(s, nm, c) && begin_data(c.action).value is Some;
                    let kc = choose|kc: int| 0 <= kc < n && self.events@[kc] == c;
                    assert(!id_lt(c.id, self.events@[k].id));
                    assert(!id_lt(self.events@[k].id, c.id));
                    assert(kc == k);
                }
                if m.contains_key(nm) && m[nm] == v {
                    let c = choose|c: MarkEvent| wins(s, nm, c) && begin_data(c.action).value is Some;
                    let kc = choose|kc: int| 0 <= kc < n && self.events@[kc] == c;
                    assert(wins(s, begin_data(self.events@[kc].action).name, self.events@[kc]));
                }
            }
        }
        r
    }
}

/// The overlay depends only on which mark events were met, not on the order in
/// which they were met: replicas that hold the same mark operations, merged in
/// any order, agree on the formatting in force.
pub proof fn lemma_overlay_order_independent(a: Seq<MarkEvent>, b: Seq<MarkEvent>)
    requires
        forall|e: MarkEvent| a.contains(e) <==> b.contains(e),
    ensures
        overlay(a.to_set()) == overlay(b.to_set()),
{
    assert(a.to_set() =~= b.to_set());
}

} // verus!
