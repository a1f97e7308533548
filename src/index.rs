use std::rc::Rc;
use vstd::prelude::*;
use crate::relation::{lower_bound, lower_bound_key, well_formed};

verus! {

/// Where a cursor stands: at a top-level entry, or at a value inside the
/// entry it has bound.
#[derive(PartialEq, Eq, Structural, Clone, Copy, Debug)]
pub enum Position {
    Upper(usize),
    Lower(usize, usize),
}

/// A position is within reach of `rel`: each index is in bounds or exactly
/// one past the end of its level.
pub open spec fn in_range(rel: Seq<(u64, Seq<u64>)>, p: Position) -> bool {
    match p {
        Position::Upper(i) => i <= rel.len(),
        Position::Lower(i, j) => {
            &&& i <= rel.len()
            &&& i < rel.len() ==> j <= rel[i as int].1.len()
            &&& i == rel.len() ==> j == 0
        },
    }
}

/// The key or value that a position designates, `None` past the end.
pub open spec fn value_at(rel: Seq<(u64, Seq<u64>)>, p: Position) -> Option<u64> {
    match p {
        Position::Upper(i) => if i < rel.len() {
            Some(rel[i as int].0)
        } else {
            None
        },
        Position::Lower(i, j) => if i < rel.len() && j < rel[i as int].1.len() {
            Some(rel[i as int].1[j as int])
        } else {
            None
        },
    }
}

/// Binding the current key: `Upper(i)` becomes `Lower(i, 0)`.
pub open spec fn after_down(p: Position) -> Position {
    match p {
        Position::Upper(i) => Position::Lower(i, 0),
        Position::Lower(i, j) => Position::Lower(i, j),
    }
}

/// Unbinding: `Lower(i, _)` becomes `Upper(i)`.
pub open spec fn after_up(p: Position) -> Position {
    match p {
        Position::Lower(i, _) => Position::Upper(i),
        Position::Upper(i) => Position::Upper(i),
    }
}

/// Rewinding the active level to its first slot, keeping a bound key.
pub open spec fn after_reset(p: Position) -> Position {
    match p {
        Position::Upper(_) => Position::Upper(0),
        Position::Lower(i, _) => Position::Lower(i, 0),
    }
}

/// One step forward on the active level; nothing moves once it is exhausted.
pub open spec fn after_next(rel: Seq<(u64, Seq<u64>)>, p: Position) -> Position {
    if value_at(rel, p) is Some {
        match p {
            Position::Upper(i) => Position::Upper((i + 1) as usize),
            Position::Lower(i, j) => Position::Lower(i, (j + 1) as usize),
        }
    } else {
        p
    }
}

/// The index of the key a position stands at or under.
pub open spec fn key_slot(p: Position) -> int {
    match p {
        Position::Upper(i) => i as int,
        Position::Lower(i, _) => i as int,
    }
}

/// The index on the active level.
pub open spec fn slot(p: Position) -> int {
    match p {
        Position::Upper(i) => i as int,
        Position::Lower(_, j) => j as int,
    }
}

/// The number of slots on the active level.
pub open spec fn level_len(rel: Seq<(u64, Seq<u64>)>, p: Position) -> int {
    match p {
        Position::Upper(_) => rel.len() as int,
        Position::Lower(i, _) => rel[i as int].1.len() as int,
    }
}

/// A trie cursor over a shared two-level sorted relation, moving along one
/// level at a time.
pub struct Index {
    level: Position,
    data: Rc<Vec<(u64, Vec<u64>)>>,
}

impl Index {
    /// The relation the cursor walks, as keys with their value lists.
    pub closed spec fn relation(&self) -> Seq<(u64, Seq<u64>)> {
        self.data.deep_view()
    }

    /// Where the cursor stands.
    pub closed spec fn position(&self) -> Position {
        self.level
    }

    /// The relation is sorted and the position is within its reach.
    pub open spec fn wf(&self) -> bool {
        well_formed(self.relation()) && in_range(self.relation(), self.position())
    }

    /// What `value` returns.
    pub open spec fn current(&self) -> Option<u64> {
        value_at(self.relation(), self.position())
    }

    /// A cursor at the first key of `data`.
    pub fn new(data: Rc<Vec<(u64, Vec<u64>)>>) -> (r: Self)
        requires
            well_formed(data.deep_view()),
        ensures
            r.relation() == data.deep_view(),
            r.position() == Position::Upper(0),
            r.wf(),
    {
        Index { level: Position::Upper(0), data }
    }

    /// The current key (at `Upper`) or value (at `Lower`); `None` once the
    /// active level is exhausted.
    pub fn value(&self) -> (r: Option<u64>)
        requires
            self.wf(),
        ensures
            r == self.current(),
    {
        match self.level {
            Position::Upper(i) => {
                if i < self.data.len() {
                    Some(self.data[i].0)
                } else {
                    None
                }
            },
            Position::Lower(i, j) => {
                if i < self.data.len() && j < self.data[i].1.len() {
                    Some(self.data[i].1[j])
                } else {
                    None
                }
            },
        }
    }

    /// Moves the active level to the first slot whose key or value is at
    /// least `v`, or past the end if there is none; the bound key stays.
    pub fn seek(&mut self, v: u64)
        requires
            old(self).wf(),
            old(self).position() matches Position::Lower(i, _) ==> i < old(self).relation().len(),
        ensures
            final(self).wf(),
            final(self).relation() == old(self).relation(),
            ({
                let rel = old(self).relation();
                match (old(self).position(), final(self).position()) {
                    (Position::Upper(_), Position::Upper(k)) => {
                        &&& forall|p: int| 0 <= p < k ==> rel[p].0 < v
                        &&& forall|p: int| k <= p < rel.len() ==> rel[p].0 >= v
                    },
                    (Position::Lower(i, _), Position::Lower(i2, k)) => {
                        &&& i2 == i
                        &&& forall|p: int| 0 <= p < k ==> rel[i as int].1[p] < v
                        &&& forall|p: int| k <= p < rel[i as int].1.len() ==> rel[i as int].1[p] >= v
                    },
                    _ => false,
                }
            }),
    {
        match self.level {
            Position::Upper(_) => {
                let k: usize = lower_bound_key(&self.data, v);
                self.level = Position::Upper(k);
            },
            Position::Lower(i, _) => {
                assert(self.data[i as int].1@ == self.relation()[i as int].1);
                let k: usize = lower_bound(&self.data[i].1, v);
                self.level = Position::Lower(i, k);
            },
        }
    }

    /// Leaves the bound key's values and returns to the key level, at the
    /// same key.
    pub fn up(&mut self)
        requires
            old(self).wf(),
            old(self).position() is Lower,
        ensures
            final(self).wf(),
            final(self).relation() == old(self).relation(),
            final(self).position() == after_up(old(self).position()),
    {
        match self.level {
            Position::Lower(i, _) => {
                self.level = Position::Upper(i);
            },
            Position::Upper(_) => {},
        }
    }

    /// Binds the current key and enters its value list at the first value.
    pub fn down(&mut self)
        requires
            old(self).wf(),
            old(self).position() is Upper,
        ensures
            final(self).wf(),
            final(self).relation() == old(self).relation(),
            final(self).position() == after_down(old(self).position()),
    {
        match self.level {
            Position::Upper(i) => {
                self.level = Position::Lower(i, 0);
            },
            Position::Lower(_, _) => {},
        }
    }

    /// Rewinds the active level to its start: the first key at `Upper`, the
    /// first value of the same bound key at `Lower`.
    pub fn reset(&mut self)
        requires
            old(self).wf(),
        ensures
            final(self).wf(),
            final(self).relation() == old(self).relation(),
            final(self).position() == after_reset(old(self).position()),
    {
        match self.level {
            Position::Upper(_) => {
                self.level = Position::Upper(0);
            },
            Position::Lower(i, _) => {
                self.level = Position::Lower(i, 0);
            },
        }
    }

    /// Advances the active level by one slot; an exhausted level stays
    /// exhausted.
    pub fn next(&mut self)
        requires
            old(self).wf(),
        ensures
            final(self).wf(),
            final(self).relation() == old(self).relation(),
            final(self).position() == after_next(old(self).relation(), old(self).position()),
            old(self).current() is Some ==> slot(final(self).position()) == slot(
                old(self).position(),
            ) + 1,
    {
        match self.level {
            Position::Upper(i) => {
                if i < self.data.len() {
                    self.level = Position::Upper(i + 1);
                }
            },
            Position::Lower(i, j) => {
                if i < self.data.len() && j < self.data[i].1.len() {
                    self.level = Position::Lower(i, j + 1);
                }
            },
        }
    }
}

/// Binding and then unbinding a key restores the cursor exactly:
/// `down` followed by `up` takes `Upper(i)` back to `Upper(i)`.
pub proof fn lemma_down_up(p: Position)
    requires
        p is Upper,
    ensures
        after_up(after_down(p)) == p,
{
}

/// Rewinding twice is the same as rewinding once.
pub proof fn lemma_reset_idempotent(p: Position)
    ensures
        after_reset(after_reset(p)) == after_reset(p),
{
}

/// After `reset`, a cursor at `Upper` stands at the first key; one at
/// `Lower` keeps its bound key and stands at that key's first value.
pub proof fn lemma_reset_restarts(rel: Seq<(u64, Seq<u64>)>, p: Position)
    requires
        in_range(rel, p),
    ensures
        p is Upper ==> value_at(rel, after_reset(p)) == (if rel.len() > 0 {
            Some(rel[0].0)
        } else {
            None::<u64>
        }),
        p is Lower ==> key_slot(after_reset(p)) == key_slot(p) && value_at(rel, after_reset(p))
            == (if key_slot(p) < rel.len() && rel[key_slot(p)].1.len() > 0 {
            Some(rel[key_slot(p)].1[0])
        } else {
            None::<u64>
        }),
{
}

} // verus!
