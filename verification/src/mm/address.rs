//! Physical and virtual addresses and page numbers.
//!
//! All four are newtypes over a 64-bit word. An address is split into a page
//! number and a 12-bit offset; `floor` and `ceil` round an address to a page
//! number, and a page number converts back to the address of its first byte.

use vstd::prelude::*;
use crate::config::{PAGE_SIZE, PA_LIMIT, PPN_LIMIT, VA_LIMIT, VPN_LIMIT};

verus! {

#[derive(Clone, Copy, Debug, PartialEq, Eq, Structural)]
pub struct PhysAddr(pub u64);

#[derive(Clone, Copy, Debug, PartialEq, Eq, Structural)]
pub struct VirtAddr(pub u64);

#[derive(Clone, Copy, Debug, PartialEq, Eq, Structural)]
pub struct PhysPageNum(pub u64);

#[derive(Clone, Copy, Debug, PartialEq, Eq, Structural)]
pub struct VirtPageNum(pub u64);

/// Page number that holds byte `addr`.
pub open spec fn page_floor(addr: int) -> int {
    addr / 4096
}

/// Number of the first page that starts at or after byte `addr`.
pub open spec fn page_ceil(addr: int) -> int {
    (addr + 4095) / 4096
}

impl PhysAddr {
    pub open spec fn wf(self) -> bool {
        self.0 < PA_LIMIT
    }

    /// Keeps the low 56 bits of `v`.
    pub fn from(v: u64) -> (r: Self)
        ensures
            r.0 == v % PA_LIMIT,
            r.wf(),
    {
        PhysAddr(v % PA_LIMIT)
    }

    pub fn floor(&self) -> (r: PhysPageNum)
        ensures
            r.0 == page_floor(self.0 as int),
            self.wf() ==> r.wf(),
    {
        PhysPageNum(self.0 / PAGE_SIZE)
    }

    pub fn ceil(&self) -> (r: PhysPageNum)
        ensures
            r.0 == page_ceil(self.0 as int),
            self.wf() ==> r.0 <= PPN_LIMIT,
    {
        if self.0 == 0 {
            PhysPageNum(0)
        } else {
            PhysPageNum((self.0 - 1) / PAGE_SIZE + 1)
        }
    }

    pub fn page_offset(&self) -> (r: u64)
        ensures
            r == self.0 % PAGE_SIZE,
            r < PAGE_SIZE,
    {
        self.0 % PAGE_SIZE
    }

    pub fn aligned(&self) -> (r: bool)
        ensures
            r == (self.0 % PAGE_SIZE == 0),
    {
        self.page_offset() == 0
    }
}

impl VirtAddr {
    pub open spec fn wf(self) -> bool {
        self.0 < VA_LIMIT
    }

    /// Keeps the low 39 bits of `v`.
    pub fn from(v: u64) -> (r: Self)
        ensures
            r.0 == v % VA_LIMIT,
            r.wf(),
    {
        VirtAddr(v % VA_LIMIT)
    }

    pub fn floor(&self) -> (r: VirtPageNum)
        ensures
            r.0 == page_floor(self.0 as int),
            self.wf() ==> r.wf(),
    {
        VirtPageNum(self.0 / PAGE_SIZE)
    }

    pub fn ceil(&self) -> (r: VirtPageNum)
        ensures
            r.0 == page_ceil(self.0 as int),
            self.wf() ==> r.0 <= VPN_LIMIT,
    {
        if self.0 == 0 {
            VirtPageNum(0)
        } else {
            VirtPageNum((self.0 - 1) / PAGE_SIZE + 1)
        }
    }

    pub fn page_offset(&self) -> (r: u64)
        ensures
            r == self.0 % PAGE_SIZE,
            r < PAGE_SIZE,
    {
        self.0 % PAGE_SIZE
    }

    pub fn aligned(&self) -> (r: bool)
        ensures
            r == (self.0 % PAGE_SIZE == 0),
    {
        self.page_offset() == 0
    }

    /// The 64-bit form of a 39-bit address: bit 38 is copied into the bits above it.
    pub open spec fn spec_to_u64(&self) -> u64 {
        if self.0 >= 0x40_0000_0000 && self.0 < VA_LIMIT {
            (self.0 + 0xffff_ff80_0000_0000) as u64
        } else {
            self.0
        }
    }

    #[verifier::when_used_as_spec(spec_to_u64)]
    pub fn to_u64(&self) -> (r: u64)
        ensures
            r == self.spec_to_u64(),
    {
        if self.0 >= 0x40_0000_0000 && self.0 < VA_LIMIT {
            self.0 + 0xffff_ff80_0000_0000
        } else {
            self.0
        }
    }
}

impl PhysPageNum {
    pub open spec fn wf(self) -> bool {
        self.0 < PPN_LIMIT
    }

    /// Keeps the low 44 bits of `v`.
    pub fn from(v: u64) -> (r: Self)
        ensures
            r.0 == v % PPN_LIMIT,
            r.wf(),
    {
        PhysPageNum(v % PPN_LIMIT)
    }

    /// Address of the first byte of the page.
    pub fn addr(&self) -> (r: PhysAddr)
        requires
            self.wf(),
        ensures
            r.0 == self.0 * PAGE_SIZE,
            r.wf(),
    {
        PhysAddr(self.0 * PAGE_SIZE)
    }
}

impl VirtPageNum {
    pub open spec fn wf(self) -> bool {
        self.0 < VPN_LIMIT
    }

    /// Keeps the low 27 bits of `v`.
    pub fn from(v: u64) -> (r: Self)
        ensures
            r.0 == v % VPN_LIMIT,
            r.wf(),
    {
        VirtPageNum(v % VPN_LIMIT)
    }

    /// Address of the first byte of the page.
    pub fn addr(&self) -> (r: VirtAddr)
        requires
            self.wf(),
        ensures
            r.0 == self.0 * PAGE_SIZE,
            r.wf(),
    {
        VirtAddr(self.0 * PAGE_SIZE)
    }

    /// Index into the page table of `level` (0 is the root) on the walk to this page.
    pub open spec fn spec_index(self, level: int) -> int {
        let v = self.0 as int;
        if level == 0 {
            (v / 0x4_0000) % 512
        } else if level == 1 {
            (v / 512) % 512
        } else {
            v % 512
        }
    }

    /// The three 9-bit indexes of the walk, root first.
    pub fn indexes(&self) -> (r: [usize; 3])
        ensures
            r[0] == self.spec_index(0),
            r[1] == self.spec_index(1),
            r[2] == self.spec_index(2),
            r[0] < 512 && r[1] < 512 && r[2] < 512,
    {
        let a: u64 = (self.0 / 0x4_0000) % 512;
        let b: u64 = (self.0 / 512) % 512;
        let c: u64 = self.0 % 512;
        [a as usize, b as usize, c as usize]
    }
}

/// Two page numbers below the limit with the same three indexes are the same page.
pub proof fn lemma_indexes_determine_vpn(a: VirtPageNum, b: VirtPageNum)
    requires
        a.wf(),
        b.wf(),
        a.spec_index(0) == b.spec_index(0),
        a.spec_index(1) == b.spec_index(1),
        a.spec_index(2) == b.spec_index(2),
    ensures
        a == b,
{
    let x = a.0 as int;
    let y = b.0 as int;
    assert(x == (x / 0x4_0000) * 0x4_0000 + ((x / 512) % 512) * 512 + x % 512) by {
        assert(x / 0x4_0000 == (x / 512) / 512);
    }
    assert(y == (y / 0x4_0000) * 0x4_0000 + ((y / 512) % 512) * 512 + y % 512) by {
        assert(y / 0x4_0000 == (y / 512) / 512);
    }
    assert(x / 0x4_0000 < 512);
    assert(y / 0x4_0000 < 512);
}

/// A half-open range of virtual page numbers.
#[derive(Clone, Copy, Debug, PartialEq, Eq, Structural)]
pub struct VPNRange {
    pub l: VirtPageNum,
    pub r: VirtPageNum,
}

impl VPNRange {
    pub open spec fn start(self) -> int {
        self.l.0 as int
    }

    pub open spec fn end(self) -> int {
        self.r.0 as int
    }

    /// Whether page `vpn` lies in the range.
    pub open spec fn contains(self, vpn: int) -> bool {
        self.start() <= vpn < self.end()
    }

    /// Number of pages in the range.
    pub open spec fn len(self) -> nat {
        if self.end() > self.start() {
            (self.end() - self.start()) as nat
        } else {
            0
        }
    }

    /// Whether the range ends at or after its start.
    pub open spec fn wf(self) -> bool {
        self.start() <= self.end()
    }

    /// Whether the two ranges share no page.
    pub open spec fn disjoint(self, other: VPNRange) -> bool {
        forall|v: int| !(#[trigger] self.contains(v) && other.contains(v))
    }

    pub fn new(start: VirtPageNum, end: VirtPageNum) -> (r: Self)
        requires
            start.0 <= end.0,
        ensures
            r.start() == start.0,
            r.end() == end.0,
    {
        VPNRange { l: start, r: end }
    }

    pub fn get_start(&self) -> (r: VirtPageNum)
        ensures
            r.0 == self.start(),
    {
        self.l
    }

    pub fn get_end(&self) -> (r: VirtPageNum)
        ensures
            r.0 == self.end(),
    {
        self.r
    }
}

} // verus!
