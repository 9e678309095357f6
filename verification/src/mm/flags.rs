//! The flag field of a page-table entry.

use vstd::prelude::*;

verus! {

/// Valid.
pub const FLAG_V: u16 = 1;

/// Readable.
pub const FLAG_R: u16 = 2;

/// Writable.
pub const FLAG_W: u16 = 4;

/// Executable.
pub const FLAG_X: u16 = 8;

/// Accessible from user mode.
pub const FLAG_U: u16 = 16;

/// Global.
pub const FLAG_G: u16 = 32;

/// Accessed.
pub const FLAG_A: u16 = 64;

/// Dirty.
pub const FLAG_D: u16 = 128;

/// Copy-on-write.
pub const FLAG_C: u16 = 256;

/// Every flag at once.
pub const FLAG_ALL: u16 = 511;

/// A set of page-table flags, one bit each.
#[derive(Clone, Copy, Debug, PartialEq, Eq, Structural)]
pub struct PTEFlags {
    pub bits: u16,
}

impl PTEFlags {
    /// Whether only known flags are set.
    pub open spec fn wf(self) -> bool {
        self.bits <= FLAG_ALL
    }

    /// Whether every flag of `mask` is set.
    pub open spec fn has(self, mask: u16) -> bool {
        self.bits & mask == mask
    }

    pub fn empty() -> (r: Self)
        ensures
            r.bits == 0,
            r.wf(),
    {
        PTEFlags { bits: 0 }
    }

    /// The flags with the given bits; `None` when a bit outside the nine flags is set.
    pub fn from_bits(bits: u16) -> (r: Option<Self>)
        ensures
            r == (if bits <= FLAG_ALL {
                Some(PTEFlags { bits })
            } else {
                None::<PTEFlags>
            }),
    {
        if bits <= FLAG_ALL {
            Some(PTEFlags { bits })
        } else {
            None
        }
    }

    pub fn bits(&self) -> (r: u16)
        ensures
            r == self.bits,
    {
        self.bits
    }

    pub fn is_empty(&self) -> (r: bool)
        ensures
            r == (self.bits == 0),
    {
        self.bits == 0
    }

    /// The flags of either set.
    pub fn union(self, other: PTEFlags) -> (r: Self)
        ensures
            r.bits == self.bits | other.bits,
            self.wf() && other.wf() ==> r.wf(),
    {
        let a: u16 = self.bits;
        let b: u16 = other.bits;
        assert(a <= 511 && b <= 511 ==> (a | b) <= 511) by (bit_vector);
        PTEFlags { bits: a | b }
    }

    /// The flags of both sets.
    pub fn intersection(self, other: PTEFlags) -> (r: Self)
        ensures
            r.bits == self.bits & other.bits,
            self.wf() || other.wf() ==> r.wf(),
    {
        let a: u16 = self.bits;
        let b: u16 = other.bits;
        assert(a <= 511 || b <= 511 ==> (a & b) <= 511) by (bit_vector);
        PTEFlags { bits: a & b }
    }

    /// Whether every flag of `other` is set in `self`.
    pub fn contains(&self, other: PTEFlags) -> (r: bool)
        ensures
            r == self.has(other.bits),
    {
        self.bits & other.bits == other.bits
    }
}

/// The permissions of a mapped area; the same bits as [`PTEFlags`].
#[derive(Clone, Copy, Debug, PartialEq, Eq, Structural)]
pub struct MapPermission {
    pub bits: u16,
}

impl MapPermission {
    pub open spec fn wf(self) -> bool {
        self.bits <= FLAG_ALL
    }

    pub open spec fn has(self, mask: u16) -> bool {
        self.bits & mask == mask
    }

    pub fn empty() -> (r: Self)
        ensures
            r.bits == 0,
            r.wf(),
    {
        MapPermission { bits: 0 }
    }

    /// The permissions with the given bits; `None` when a bit outside the nine flags is set.
    pub fn from_bits(bits: u16) -> (r: Option<Self>)
        ensures
            r == (if bits <= FLAG_ALL {
                Some(MapPermission { bits })
            } else {
                None::<MapPermission>
            }),
    {
        if bits <= FLAG_ALL {
            Some(MapPermission { bits })
        } else {
            None
        }
    }

    pub fn bits(&self) -> (r: u16)
        ensures
            r == self.bits,
    {
        self.bits
    }

    pub fn union(self, other: MapPermission) -> (r: Self)
        ensures
            r.bits == self.bits | other.bits,
            self.wf() && other.wf() ==> r.wf(),
    {
        let a: u16 = self.bits;
        let b: u16 = other.bits;
        assert(a <= 511 && b <= 511 ==> (a | b) <= 511) by (bit_vector);
        MapPermission { bits: a | b }
    }

    pub fn contains(&self, other: MapPermission) -> (r: bool)
        ensures
            r == self.has(other.bits),
    {
        self.bits & other.bits == other.bits
    }
}

} // verus!
