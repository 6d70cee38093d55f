//! A fixed nine-element membership set, used to track which values are
//! already taken inside one house (row, column or block).

use vstd::prelude::*;

verus! {

/// Membership over the value domain `0..9`.
#[derive(Clone, Copy, Debug)]
pub struct BitSet {
    pub bits: [bool; 9],
}

impl BitSet {
    /// Whether a value is a member.
    pub open spec fn has(self, v: int) -> bool {
        self.bits[v]
    }

    /// The empty set.
    pub fn empty() -> (r: BitSet)
        ensures
            forall|v: int| 0 <= v < 9 ==> !r.has(v),
    {
        BitSet { bits: [false; 9] }
    }

    /// Adds a value.
    pub fn set(&mut self, v: u8)
        requires
            v < 9,
        ensures
            final(self).has(v as int),
            forall|u: int| 0 <= u < 9 && u != v as int ==> (final(self).has(u) <==> old(self).has(u)),
    {
        self.bits[v as usize] = true;
    }

    /// Removes a value.
    pub fn reset(&mut self, v: u8)
        requires
            v < 9,
        ensures
            !final(self).has(v as int),
            forall|u: int| 0 <= u < 9 && u != v as int ==> (final(self).has(u) <==> old(self).has(u)),
    {
        self.bits[v as usize] = false;
    }

    /// Tests a value.
    pub fn contains(&self, v: u8) -> (r: bool)
        requires
            v < 9,
        ensures
            r == self.has(v as int),
    {
        self.bits[v as usize]
    }

    /// Element-wise union; neither argument is changed.
    pub fn union(self, other: BitSet) -> (r: BitSet)
        ensures
            forall|v: int| 0 <= v < 9 ==> (r.has(v) <==> self.has(v) || other.has(v)),
    {
        let mut bits: [bool; 9] = [false; 9];
        let mut i: usize = 0;
        while i < 9
            invariant
                i <= 9,
                forall|v: int| 0 <= v < i ==> (bits[v] <==> self.has(v) || other.has(v)),
            decreases 9 - i,
        {
            bits[i] = self.bits[i] || other.bits[i];
            i = i + 1;
        }
        BitSet { bits }
    }
}

} // verus!
