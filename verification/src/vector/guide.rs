//! The guide of a vector: its count, whether its header is compact, and its
//! header segment.

use std::rc::Rc;
use vstd::prelude::*;
use crate::memory::{Unit, Segment, slots_of};
use super::{node_wf, lookup, spec_tailoff, height};

verus! {

/// A vector being worked on: its guide fields and its own header segment.
pub struct Guide {
    pub count: u32,
    pub is_compact_bit: u32,
    pub segment: Segment,
}

impl Guide {
    /// Where the root slots begin: after the tail slot, which a compact
    /// header lacks.
    pub open spec fn root_at(self) -> nat {
        (1 - self.is_compact_bit) as nat
    }

    /// The root slots of the header.
    pub open spec fn root_slots(self) -> Seq<Unit> {
        self.segment.units@.skip(self.root_at() as int)
    }

    /// The units of the tail.
    pub open spec fn tail_slots(self) -> Seq<Unit> {
        slots_of(self.segment.units@[0])
    }

    /// The elements in the tree.
    pub open spec fn tree_size(self) -> nat {
        spec_tailoff(self.count as nat)
    }

    /// The vector is well formed: its elements stand where the layout says,
    /// and a compact header has room for fewer than 16 root slots.
    pub open spec fn wf(self) -> bool {
        &&& self.is_compact_bit <= 1
        &&& self.segment.units@.len() >= self.root_at()
        &&& if self.count <= 16 {
            &&& self.count <= self.root_slots().len()
            &&& self.is_compact_bit == 1 ==> self.root_slots().len() < 16
        } else {
            &&& self.is_compact_bit == 0
            &&& self.segment.units@[0] is Seg
            &&& self.tail_slots().len() >= 16
            &&& node_wf(self.root_slots(), height(self.tree_size()), self.tree_size())
        }
    }

    /// Element `i` of the vector.
    pub open spec fn element(self, i: nat) -> Unit {
        if self.count <= 16 {
            self.root_slots()[i as int]
        } else if i >= self.tree_size() {
            self.tail_slots()[i - self.tree_size()]
        } else {
            lookup(self.root_slots(), height(self.tree_size()), i)
        }
    }

    /// The elements of the vector, in order.
    pub open spec fn elements(self) -> Seq<Unit> {
        Seq::new(self.count as nat, |i: int| self.element(i as nat))
    }

    /// Where the root slots begin.
    pub fn root_index(&self) -> (r: usize)
        requires
            self.is_compact_bit <= 1,
        ensures
            r == self.root_at(),
    {
        (1 - self.is_compact_bit) as usize
    }

    /// The same vector with one more element counted.
    pub fn inc_count(self) -> (g: Guide)
        requires
            self.count < u32::MAX,
        ensures
            g.count == self.count + 1,
            g.is_compact_bit == self.is_compact_bit,
            g.segment == self.segment,
    {
        Guide { count: self.count + 1, is_compact_bit: self.is_compact_bit, segment: self.segment }
    }

    /// The vector, stored where any number of values can hold it.
    pub fn store(self) -> (r: Rc<Guide>)
        ensures
            *r == self,
    {
        Rc::new(self)
    }
}

/// The empty vector: a compact header with no room yet.
pub fn empty() -> (r: Rc<Guide>)
    ensures
        r.wf(),
        r.elements() == Seq::<Unit>::empty(),
{
    let g = Guide { count: 0, is_compact_bit: 1, segment: Segment::new(0) };
    assert(g.elements() =~= Seq::<Unit>::empty());
    g.store()
}

}
