//! `Rights`: what a capability lets its holder do to the object it names.

use vstd::prelude::*;

verus! {

/// A set of rights, stored as a bitmask.
#[derive(Debug, Clone, Copy, PartialEq, Eq, Structural)]
pub struct Rights(pub u32);

/// Bit for reading the object's data.
pub const READ_BIT: u32 = 1;
/// Bit for writing the object's data.
pub const WRITE_BIT: u32 = 2;
/// Bit for delegating a subset of these rights onward.
pub const GRANT_BIT: u32 = 4;
/// Bit for withdrawing what was delegated from this capability.
pub const REVOKE_BIT: u32 = 8;

impl Rights {
    /// May read the object's data.
    #[allow(non_snake_case)]
    pub fn READ() -> (r: Rights)
        ensures
            r.0 == 1,
    {
        Rights(1)
    }
    /// May write the object's data.
    #[allow(non_snake_case)]
    pub fn WRITE() -> (r: Rights)
        ensures
            r.0 == 2,
    {
        Rights(2)
    }
    /// May delegate a subset of these rights onward as a new, derived capability.
    #[allow(non_snake_case)]
    pub fn GRANT() -> (r: Rights)
        ensures
            r.0 == 4,
    {
        Rights(4)
    }
    /// May withdraw what was delegated from this capability.
    #[allow(non_snake_case)]
    pub fn REVOKE() -> (r: Rights)
        ensures
            r.0 == 8,
    {
        Rights(8)
    }
    /// No rights at all.
    #[allow(non_snake_case)]
    pub fn NONE() -> (r: Rights)
        ensures
            r.0 == 0,
    {
        Rights(0)
    }
    /// Every right this module defines.
    #[allow(non_snake_case)]
    pub fn ALL() -> (r: Rights)
        ensures
            r.0 == 15,
    {
        Rights(15)
    }

    /// Whether every bit of `other` is set in `self`.
    pub open spec fn has(self, other: Rights) -> bool {
        self.0 & other.0 == other.0
    }

    /// Builds a set from raw bits, for decoding a value received across a syscall boundary.
    pub fn from_bits(bits: u32) -> (r: Rights)
        ensures
            r.0 == bits,
    {
        Rights(bits)
    }

    /// The raw bitmask, for encoding a set across a syscall boundary.
    pub fn bits(self) -> (b: u32)
        ensures
            b == self.0,
    {
        self.0
    }

    /// True if every bit set in `other` is also set in `self`.
    pub fn contains(self, other: Rights) -> (b: bool)
        ensures
            b == self.has(other),
    {
        self.0 & other.0 == other.0
    }

    /// The rights `self` and `other` agree on: the narrowing operator delegation is built from.
    pub fn intersection(self, other: Rights) -> (r: Rights)
        ensures
            r.0 == self.0 & other.0,
    {
        Rights(self.0 & other.0)
    }

    /// The rights `self` and `other` together grant.
    pub fn union(self, other: Rights) -> (r: Rights)
        ensures
            r.0 == self.0 | other.0,
    {
        Rights(self.0 | other.0)
    }

    /// Whether no right is set.
    pub fn is_empty(self) -> (b: bool)
        ensures
            b == (self.0 == 0),
    {
        self.0 == 0
    }
}

/// Narrowing never widens: the intersection of two sets is contained in each of them, and a
/// set contains every set that `union` built from it.
pub proof fn intersection_never_widens(a: Rights, b: Rights)
    ensures
        a.has(Rights(a.0 & b.0)),
        b.has(Rights(a.0 & b.0)),
        Rights(a.0 | b.0).has(a),
        Rights(a.0 | b.0).has(b),
        a.has(b) ==> (a.0 & b.0) == b.0,
{
    let x = a.0;
    let y = b.0;
    assert(x & (x & y) == (x & y) && y & (x & y) == (x & y) && (x | y) & x == x && (x | y) & y
        == y && (x & y == y ==> x & y == y)) by (bit_vector);
}

/// `contains` is transitive: a capability derived from one derived from `a` holds no right
/// `a` lacks.
pub proof fn contains_is_transitive(a: Rights, b: Rights, c: Rights)
    requires
        a.has(b),
        b.has(c),
    ensures
        a.has(c),
{
    let x = a.0;
    let y = b.0;
    let z = c.0;
    assert(x & z == z) by (bit_vector)
        requires
            x & y == y,
            y & z == z,
    ;
}

} // verus!
