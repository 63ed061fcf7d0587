//! Memory: segments of units. A unit is a word or a counted reference to a
//! segment; a segment shared by several owners is copied before it is
//! written, so that no owner sees another's writes.

use std::rc::Rc;
use vstd::prelude::*;

verus! {

/// One unit of memory: a plain word, or a reference to a segment.
pub enum Unit {
    Word(u64),
    Seg(Rc<Segment>),
}

/// A run of units; its capacity is the number of units.
pub struct Segment {
    pub units: Vec<Unit>,
}

/// The units of the segment a unit refers to, none for a word.
pub open spec fn slots_of(u: Unit) -> Seq<Unit> {
    match u {
        Unit::Word(_) => Seq::empty(),
        Unit::Seg(s) => s.units@,
    }
}

/// Another owner of the same unit: a word is copied, a segment is shared.
pub fn share(u: &Unit) -> (r: Unit)
    ensures
        r == *u,
{
    match u {
        Unit::Word(w) => Unit::Word(*w),
        Unit::Seg(s) => Unit::Seg(s.clone()),
    }
}

impl Segment {
    /// A segment of `cap` units, all the word 0.
    pub fn new(cap: u32) -> (s: Segment)
        ensures
            s.units@.len() == cap,
            forall|i: int| 0 <= i < cap ==> #[trigger] s.units@[i] == Unit::Word(0),
    {
        let mut units: Vec<Unit> = Vec::new();
        let mut i: u32 = 0;
        while i < cap
            invariant
                i <= cap,
                units@.len() == i,
                forall|j: int| 0 <= j < i ==> #[trigger] units@[j] == Unit::Word(0),
            decreases cap - i,
        {
            units.push(Unit::Word(0));
            i = i + 1;
        }
        Segment { units }
    }

    /// Whether unit `i` lies within the segment.
    pub fn has_index(&self, i: u32) -> (r: bool)
        ensures
            r == (i < self.units@.len()),
    {
        (i as usize) < self.units.len()
    }

    /// The number of units.
    pub fn capacity(&self) -> (r: usize)
        ensures
            r == self.units@.len(),
    {
        self.units.len()
    }
}

/// Copies `n` units of `from`, starting at `from_start`, into `to` at
/// `to_start`; copied segments become shared.
pub fn copy_units(from: &Vec<Unit>, from_start: usize, to: &mut Vec<Unit>, to_start: usize, n: usize)
    requires
        from_start + n <= from@.len(),
        to_start + n <= old(to)@.len(),
    ensures
        final(to)@.len() == old(to)@.len(),
        forall|i: int|
            0 <= i < final(to)@.len() ==> #[trigger] final(to)@[i] == if to_start <= i < to_start + n {
                from@[from_start + i - to_start]
            } else {
                old(to)@[i]
            },
{
    let from_len = from.len();
    let to_len = to.len();
    let mut k: usize = 0;
    while k < n
        invariant
            k <= n,
            from_len == from@.len(),
            to_len == old(to)@.len(),
            from_start + n <= from@.len(),
            to_start + n <= old(to)@.len(),
            to@.len() == old(to)@.len(),
            forall|i: int|
                0 <= i < to@.len() ==> #[trigger] to@[i] == if to_start <= i < to_start + k {
                    from@[from_start + i - to_start]
                } else {
                    old(to)@[i]
                },
        decreases n - k,
    {
        let u = share(&from[from_start + k]);
        to.set(to_start + k, u);
        k = k + 1;
    }
}

/// The segment behind a reference, for writing: the segment itself when no
/// other owner holds it, else a copy of its first `keep` units in a new
/// segment of `cap` units.
pub fn own_or_copy(seg: Rc<Segment>, keep: usize, cap: u32) -> (r: Segment)
    requires
        keep <= cap,
        keep <= seg.units@.len(),
    ensures
        r == *seg || (r.units@.len() == cap && forall|i: int|
            0 <= i < cap ==> #[trigger] r.units@[i] == if i < keep {
                seg.units@[i]
            } else {
                Unit::Word(0)
            }),
        forall|i: int| 0 <= i < keep ==> #[trigger] r.units@[i] == seg.units@[i],
        r.units@.len() >= keep,
{
    match Rc::try_unwrap(seg) {
        Ok(s) => s,
        Err(shared) => {
            let mut t = Segment::new(cap);
            copy_units(&shared.units, 0, &mut t.units, 0, keep);
            t
        },
    }
}

}
