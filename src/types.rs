//! Operation identifiers, keys, operations, causal clocks and visibility.
use vstd::prelude::*;

verus! {

/// A globally unique operation identifier: a per-actor counter and an actor
/// number. Identifiers are ordered by counter first, then by actor.
#[derive(Clone, Copy, Debug, PartialEq, Eq, Structural)]
pub struct OpId {
    pub counter: u64,
    pub actor: u64,
}

/// The total order on operation identifiers (counter, then actor).
pub open spec fn id_lt(a: OpId, b: OpId) -> bool {
    a.counter < b.counter || (a.counter == b.counter && a.actor < b.actor)
}

impl OpId {
    pub fn new(counter: u64, actor: u64) -> (r: OpId)
        ensures
            r == (OpId { counter, actor }),
    {
        OpId { counter, actor }
    }

    /// Whether `self` orders strictly before `other`.
    pub fn lt(&self, other: &OpId) -> (r: bool)
        ensures
            r == id_lt(*self, *other),
    {
        self.counter < other.counter || (self.counter == other.counter && self.actor < other.actor)
    }
}

/// Where an operation applies: a map key, or a list element named by the
/// identifier of the operation that inserted it.
#[derive(Clone, Copy, Debug, PartialEq, Eq, Structural)]
pub enum Key {
    MapKey(u64),
    Elem(OpId),
}

/// Payload of a formatting mark: an interned attribute name and its value;
/// `None` clears the attribute.
#[derive(Clone, Copy, Debug, PartialEq, Eq, Structural)]
pub struct MarkData {
    pub name: u64,
    pub value: Option<u64>,
}

/// What an operation does.
#[derive(Clone, Copy, Debug, PartialEq, Eq, Structural)]
pub enum OpAction {
    /// Puts a (scalar) value.
    Put(u64),
    /// Opens a formatting span.
    MarkBegin(MarkData),
    /// Closes the span opened by the operation whose counter is one less.
    MarkEnd,
}

/// One operation of the log.
#[derive(Debug)]
pub struct Op {
    pub id: OpId,
    /// Starts a new list element (its element identifier is `id`).
    pub insert: bool,
    /// For a non-inserting operation: the element or map key it mutates.
    pub key: Key,
    pub action: OpAction,
    /// Identifiers of the operations that overwrote or deleted this one.
    pub succ: Vec<OpId>,
}

/// Spec-level view of an operation.
pub struct OpView {
    pub id: OpId,
    pub insert: bool,
    pub key: Key,
    pub action: OpAction,
    pub succ: Seq<OpId>,
}

impl View for Op {
    type V = OpView;

    open spec fn view(&self) -> OpView {
        OpView { id: self.id, insert: self.insert, key: self.key, action: self.action, succ: self.succ@ }
    }
}

/// The key under which an operation is counted: its own element for an
/// insertion, otherwise the key it mutates.
pub open spec fn elem_key(op: OpView) -> Key {
    if op.insert {
        Key::Elem(op.id)
    } else {
        op.key
    }
}

/// The list element an operation belongs to, if it belongs to one.
pub open spec fn elem_id(op: OpView) -> Option<OpId> {
    if op.insert {
        Some(op.id)
    } else {
        match op.key {
            Key::Elem(e) => Some(e),
            Key::MapKey(_) => None,
        }
    }
}

pub open spec fn is_mark(op: OpView) -> bool {
    !(op.action is Put)
}

/// No two operations of `s` share an identifier.
pub open spec fn unique_ids(s: Seq<OpView>) -> bool {
    forall|i: int, j: int| 0 <= i < j < s.len() ==> #[trigger] s[i].id != #[trigger] s[j].id
}

/// One entry of a causal clock: the highest counter of `actor` that is present.
#[derive(Clone, Copy, Debug, PartialEq, Eq, Structural)]
pub struct ClockEntry {
    pub actor: u64,
    pub max_op: u64,
}

/// A causal snapshot. An actor without an entry is not restricted.
#[derive(Debug)]
pub struct Clock {
    pub entries: Vec<ClockEntry>,
}

/// Whether the snapshot `c` includes the operation `id`.
pub open spec fn covers(c: Seq<ClockEntry>, id: OpId) -> bool {
    forall|i: int| 0 <= i < c.len() && #[trigger] c[i].actor == id.actor ==> id.counter <= c[i].max_op
}

/// Visibility of an operation: at the current state when no snapshot is given
/// (not a mark, never overwritten), else at the snapshot (a non-mark operation
/// the snapshot includes, none of whose overwriters it includes).
pub open spec fn visible_at(op: OpView, clock: Option<Seq<ClockEntry>>) -> bool {
    !is_mark(op) && match clock {
        None => op.succ.len() == 0,
        Some(c) => covers(c, op.id) && forall|j: int| 0 <= j < op.succ.len() ==> !covers(c, #[trigger] op.succ[j]),
    }
}

impl Clock {
    /// Whether this snapshot includes `id`.
    pub fn covers(&self, id: &OpId) -> (r: bool)
        ensures
            r == covers(self.entries@, *id),
    {
        let mut i: usize = 0;
        while i < self.entries.len()
            invariant
                i <= self.entries.len(),
                forall|k: int| 0 <= k < i && #[trigger] self.entries@[k].actor == id.actor ==> id.counter <= self.entries@[k].max_op,
            decreases self.entries.len() - i,
        {
            let e = self.entries[i];
            if e.actor == id.actor && id.counter > e.max_op {
                assert(!covers(self.entries@, *id)) by {
                    assert(self.entries@[i as int].actor == id.actor);
                }
                return false;
            }
            i += 1;
        }
        true
    }
}

pub open spec fn clock_view(clock: Option<&Clock>) -> Option<Seq<ClockEntry>> {
    match clock {
        None => None,
        Some(c) => Some(c.entries@),
    }
}

impl Op {
    pub fn is_mark(&self) -> (r: bool)
        ensures
            r == is_mark(self@),
    {
        match self.action {
            OpAction::Put(_) => false,
            _ => true,
        }
    }

    /// See [`elem_key`].
    pub fn elemid_or_key(&self) -> (r: Key)
        ensures
            r == elem_key(self@),
    {
        if self.insert {
            Key::Elem(self.id)
        } else {
            self.key
        }
    }

    /// See [`elem_id`].
    pub fn elemid(&self) -> (r: Option<OpId>)
        ensures
            r == elem_id(self@),
    {
        if self.insert {
            Some(self.id)
        } else {
            match self.key {
                Key::Elem(e) => Some(e),
                Key::MapKey(_) => None,
            }
        }
    }

    /// Visible at the current state.
    pub fn visible(&self) -> (r: bool)
        ensures
            r == visible_at(self@, None),
    {
        !self.is_mark() && self.succ.len() == 0
    }

    /// Visible at `clock`, or at the current state when `clock` is `None`.
    pub fn visible_at(&self, clock: Option<&Clock>) -> (r: bool)
        ensures
            r == visible_at(self@, clock_view(clock)),
    {
        match clock {
            None => self.visible(),
            Some(c) => {
                if self.is_mark() || !c.covers(&self.id) {
                    return false;
                }
                let mut j: usize = 0;
                while j < self.succ.len()
                    invariant
                        j <= self.succ.len(),
                        clock == Some(c),
                        !is_mark(self@),
                        covers(c.entries@, self.id),
                        forall|k: int| 0 <= k < j ==> !covers(c.entries@, #[trigger] self.succ@[k]),
                    decreases self.succ.len() - j,
                {
                    if c.covers(&self.succ[j]) {
                        assert(covers(c.entries@, self@.succ[j as int]));
                        return false;
                    }
                    j += 1;
                }
                true
            }
        }
    }
}

} // verus!
