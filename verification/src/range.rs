//! CIDR-style network ranges over the 128-bit address space.

use vstd::prelude::*;

verus! {

/// A block of the 128-bit address space: a base address plus a prefix
/// length. The prefix length says how many leading bits are fixed; the
/// remaining bits range over the whole block.
#[derive(Clone, Copy, Debug, PartialEq, Eq, Structural)]
pub struct NetworkRange {
    pub base: u128,
    pub prefix: u8,
}

impl NetworkRange {
    /// A prefix length never exceeds the address width.
    pub open spec fn wf(self) -> bool {
        self.prefix <= 128
    }

    /// The address lies inside this block: it agrees with `base` on the
    /// leading `prefix` bits.
    pub open spec fn covers(self, addr: u128) -> bool {
        self.prefix == 0 || addr >> ((128 - self.prefix) as u128) == self.base >> ((
        128 - self.prefix) as u128)
    }

    /// `other` denotes a subset of this block: it is at least as specific
    /// and its base address lies inside this block.
    pub open spec fn covers_range(self, other: NetworkRange) -> bool {
        self.prefix <= other.prefix && self.covers(other.base)
    }

    /// Membership test for a single address.
    pub fn contains(&self, addr: u128) -> (r: bool)
        requires
            self.wf(),
        ensures
            r == self.covers(addr),
    {
        if self.prefix == 0 {
            true
        } else {
            let shift: u128 = (128 - self.prefix) as u128;
            (addr >> shift) == (self.base >> shift)
        }
    }

    /// Subset test between two blocks.
    pub fn contains_range(&self, other: &NetworkRange) -> (r: bool)
        requires
            self.wf(),
        ensures
            r == self.covers_range(*other),
    {
        self.prefix <= other.prefix && self.contains(other.base)
    }
}

} // verus!
