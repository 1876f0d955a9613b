//! The slot type of the window: each key inside the window owns one slot,
//! holding either nothing (a gap) or exactly one value.

use vstd::prelude::*;

verus! {

/// One slot of the window: a gap (`Empty`) or one stored value (`Full`).
#[derive(Debug)]
pub enum Entry<V> {
    Empty,
    Full(V),
}

impl<V> Entry<V> {
    /// Whether this slot holds a value.
    pub open spec fn spec_is_full(&self) -> bool {
        *self is Full
    }

    /// True iff the slot is a gap.
    pub fn is_empty(&self) -> (r: bool)
        ensures
            r == !self.spec_is_full(),
    {
        match self {
            Entry::Empty => true,
            Entry::Full(_) => false,
        }
    }

    /// True iff the slot holds a value.
    pub fn is_full(&self) -> (r: bool)
        ensures
            r == self.spec_is_full(),
    {
        !self.is_empty()
    }

    /// Borrows the stored value, if any.
    pub fn as_ref(&self) -> (r: Option<&V>)
        ensures
            match r {
                Some(v) => *self is Full && *v == (*self)->Full_0,
                None => *self is Empty,
            },
    {
        match self {
            Entry::Empty => None,
            Entry::Full(v) => Some(v),
        }
    }

    /// Borrows the stored value mutably, if any; writing through the
    /// reference replaces the stored value and never empties the slot.
    pub fn as_mut(&mut self) -> (r: Option<&mut V>)
        ensures
            match r {
                Some(v) => *old(self) is Full && *v == (*old(self))->Full_0 && *final(self)
                    == Entry::Full(*final(r.unwrap())),
                None => *old(self) is Empty && *final(self) is Empty,
            },
    {
        match self {
            Entry::Empty => None,
            Entry::Full(v) => Some(v),
        }
    }

    /// Extracts the stored value, if any, consuming the slot.
    pub fn to_option(self) -> (r: Option<V>)
        ensures
            self is Full ==> r == Some(self->Full_0),
            self is Empty ==> r is None,
    {
        match self {
            Entry::Empty => None,
            Entry::Full(v) => Some(v),
        }
    }
}

} // verus!
