//! The SV39 page table: a three-level radix tree of 64-bit entries.
//!
//! A page table owns the frames of its directory pages and the leaf frames
//! that were handed over together with a mapping. Its meaning is the partial
//! map from virtual page numbers to valid leaf entries that the walk yields.

use vstd::prelude::*;
use std::collections::BTreeMap;
use vstd::std_specs::btree::*;
use vstd::std_specs::iter::IteratorSpec;
use crate::config::{PAGE_SIZE, PPN_LIMIT, VA_LIMIT, VPN_LIMIT};
use crate::mm::address::{lemma_indexes_determine_vpn, PhysAddr, PhysPageNum, VirtAddr, VirtPageNum};
use crate::mm::demand::{lacks_after, missing_after};
use crate::mm::flags::{PTEFlags, FLAG_ALL, FLAG_C, FLAG_R, FLAG_V, FLAG_W, FLAG_X};
use crate::mm::frame_allocator::{
    frame_alloc, frame_dealloc, FrameTracker, FrameTrackerMarker, StackFrameAllocator,
};

verus! {

/// Whether the valid bit of an entry is set.
pub open spec fn pte_valid(bits: u64) -> bool {
    bits & 1 == 1
}

/// The page-number field of an entry.
pub open spec fn pte_ppn(bits: u64) -> u64 {
    (bits >> 10) & 0xfff_ffff_ffff
}

/// The flag field of an entry.
pub open spec fn pte_flags(bits: u64) -> u16 {
    (bits & 0x3ff) as u16
}

/// The entry that packs page number `ppn` and flag bits `flags`.
pub open spec fn pte_bits(ppn: u64, flags: u16) -> u64 {
    (ppn << 10) | (flags as u64)
}

/// Packing a page number and flags and unpacking them again gives them back.
pub proof fn lemma_pte_fields(ppn: u64, flags: u16)
    requires
        ppn < PPN_LIMIT,
        flags <= FLAG_ALL,
    ensures
        pte_ppn(pte_bits(ppn, flags)) == ppn,
        pte_flags(pte_bits(ppn, flags)) == flags,
        pte_valid(pte_bits(ppn, flags)) == (flags & FLAG_V == FLAG_V),
        pte_flags(pte_bits(ppn, flags)) <= FLAG_ALL,
{
    assert(ppn < 0x1000_0000_0000 && flags <= 511 ==> (((ppn << 10) | (flags as u64)) >> 10)
        & 0xfff_ffff_ffff == ppn) by (bit_vector);
    assert(ppn < 0x1000_0000_0000 && flags <= 511 ==> ((((ppn << 10) | (flags as u64)) & 0x3ff)
        as u16) == flags) by (bit_vector);
    assert(ppn < 0x1000_0000_0000 && flags <= 511 ==> ((((ppn << 10) | (flags as u64)) & 1 == 1)
        == (flags & 1 == 1))) by (bit_vector);
}

/// An entry of all zeroes is not valid, and the page number of any entry is in range.
pub proof fn lemma_pte_basics(bits: u64)
    ensures
        !pte_valid(0),
        pte_ppn(bits) < PPN_LIMIT,
        pte_flags(bits) < 1024,
{
    assert(0u64 & 1 != 1) by (bit_vector);
    assert((bits >> 10) & 0xfff_ffff_ffff < 0x1000_0000_0000) by (bit_vector);
    assert(((bits & 0x3ff) as u16) < 1024) by (bit_vector);
}

/// One 64-bit page-table entry: a 44-bit page number above 10 flag bits.
#[derive(Clone, Copy, Debug, PartialEq, Eq, Structural)]
pub struct PageTableEntry {
    pub bits: u64,
}

impl PageTableEntry {
    pub fn new(ppn: PhysPageNum, flags: PTEFlags) -> (r: Self)
        requires
            ppn.wf(),
            flags.wf(),
        ensures
            r.bits == pte_bits(ppn.0, flags.bits),
            r.spec_ppn() == ppn,
            r.spec_flags() == flags,
            r.spec_is_valid() == flags.has(FLAG_V),
    {
        proof {
            lemma_pte_fields(ppn.0, flags.bits);
        }
        PageTableEntry { bits: (ppn.0 << 10) | (flags.bits as u64) }
    }

    pub fn empty() -> (r: Self)
        ensures
            r.bits == 0,
            !r.spec_is_valid(),
    {
        proof {
            lemma_pte_basics(0);
        }
        PageTableEntry { bits: 0 }
    }

    pub open spec fn spec_ppn(&self) -> PhysPageNum {
        PhysPageNum(pte_ppn(self.bits))
    }

    pub open spec fn spec_flags(&self) -> PTEFlags {
        PTEFlags { bits: pte_flags(self.bits) }
    }

    pub open spec fn spec_is_valid(&self) -> bool {
        pte_valid(self.bits)
    }

    /// Whether every flag of `mask` is set in the entry.
    pub open spec fn has(&self, mask: u16) -> bool {
        self.bits & (mask as u64) == (mask as u64)
    }

    #[verifier::when_used_as_spec(spec_ppn)]
    pub fn ppn(&self) -> (r: PhysPageNum)
        ensures
            r == self.spec_ppn(),
            r.wf(),
    {
        proof {
            lemma_pte_basics(self.bits);
        }
        PhysPageNum((self.bits >> 10) & 0xfff_ffff_ffff)
    }

    /// The flags of the entry; the tenth bit of the field is no flag and must be clear.
    #[verifier::when_used_as_spec(spec_flags)]
    pub fn flags(&self) -> (r: PTEFlags)
        requires
            pte_flags(self.bits) <= FLAG_ALL,
        ensures
            r == self.spec_flags(),
            r.wf(),
    {
        PTEFlags { bits: (self.bits & 0x3ff) as u16 }
    }

    #[verifier::when_used_as_spec(spec_is_valid)]
    pub fn is_valid(&self) -> (r: bool)
        ensures
            r == self.spec_is_valid(),
    {
        self.bits & 1 == 1
    }

    pub fn is_readable(&self) -> (r: bool)
        ensures
            r == self.has(FLAG_R),
    {
        self.bits & 2 == 2
    }

    pub fn is_writable(&self) -> (r: bool)
        ensures
            r == self.has(FLAG_W),
    {
        self.bits & 4 == 4
    }

    pub fn is_executable(&self) -> (r: bool)
        ensures
            r == self.has(FLAG_X),
    {
        self.bits & 8 == 8
    }

    pub fn is_cow_page(&self) -> (r: bool)
        ensures
            r == self.has(FLAG_C),
    {
        self.bits & 256 == 256
    }
}

/// An entry has a flag exactly when the flags it was packed from have it.
pub proof fn lemma_pte_has(ppn: u64, flags: u16, mask: u16)
    requires
        ppn < PPN_LIMIT,
        flags <= FLAG_ALL,
        mask <= FLAG_ALL,
    ensures
        (PageTableEntry { bits: pte_bits(ppn, flags) }).has(mask) == (flags & mask == mask),
{
    assert(ppn < 0x1000_0000_0000 && flags <= 511 && mask <= 511 ==> ((((ppn << 10) | (
    flags as u64)) & (mask as u64) == (mask as u64)) == (flags & mask == mask)))
        by (bit_vector);
}

/// What `PageTable::map` is asked to do.
pub struct MapArgs {
    pub vpn: VirtPageNum,
    pub ppn: PhysPageNum,
    pub flags: PTEFlags,
    pub frame: Option<FrameTracker>,
}

/// What `PageTable::unmap` is asked to do.
pub struct UnmapArgs {
    pub vpn: VirtPageNum,
    pub dealloc: bool,
    pub panic: bool,
}

impl MapArgs {
    /// Maps `vpn` to `ppn` with no flag and no frame handed over.
    pub fn builder(vpn: VirtPageNum, ppn: PhysPageNum) -> (r: Self)
        ensures
            r.vpn == vpn,
            r.ppn == ppn,
            r.flags.bits == 0,
            r.frame.is_none(),
    {
        MapArgs { vpn, ppn, flags: PTEFlags::empty(), frame: None }
    }

    pub fn with_vpn(self, vpn: VirtPageNum) -> (r: Self)
        ensures
            r.vpn == vpn,
            r.ppn == self.ppn,
            r.flags == self.flags,
            r.frame == self.frame,
    {
        MapArgs { vpn, ppn: self.ppn, flags: self.flags, frame: self.frame }
    }

    pub fn with_ppn(self, ppn: PhysPageNum) -> (r: Self)
        ensures
            r.vpn == self.vpn,
            r.ppn == ppn,
            r.flags == self.flags,
            r.frame == self.frame,
    {
        MapArgs { vpn: self.vpn, ppn, flags: self.flags, frame: self.frame }
    }

    pub fn with_flags(self, flags: PTEFlags) -> (r: Self)
        ensures
            r.vpn == self.vpn,
            r.ppn == self.ppn,
            r.flags == flags,
            r.frame == self.frame,
    {
        MapArgs { vpn: self.vpn, ppn: self.ppn, flags, frame: self.frame }
    }

    pub fn with_frame(self, frame: Option<FrameTracker>) -> (r: Self)
        ensures
            r.vpn == self.vpn,
            r.ppn == self.ppn,
            r.flags == self.flags,
            r.frame == frame,
    {
        MapArgs { vpn: self.vpn, ppn: self.ppn, flags: self.flags, frame }
    }
}

impl UnmapArgs {
    /// Unmaps `vpn`, keeps the frame, and tolerates a page that is not mapped.
    pub fn builder(vpn: VirtPageNum) -> (r: Self)
        ensures
            r.vpn == vpn,
            !r.dealloc,
            !r.panic,
    {
        UnmapArgs { vpn, dealloc: false, panic: false }
    }

    pub fn with_vpn(self, vpn: VirtPageNum) -> (r: Self)
        ensures
            r.vpn == vpn,
            r.dealloc == self.dealloc,
            r.panic == self.panic,
    {
        UnmapArgs { vpn, dealloc: self.dealloc, panic: self.panic }
    }

    pub fn with_dealloc(self, dealloc: bool) -> (r: Self)
        ensures
            r.vpn == self.vpn,
            r.dealloc == dealloc,
            r.panic == self.panic,
    {
        UnmapArgs { vpn: self.vpn, dealloc, panic: self.panic }
    }

    pub fn with_panic(self, panic: bool) -> (r: Self)
        ensures
            r.vpn == self.vpn,
            r.dealloc == self.dealloc,
            r.panic == panic,
    {
        UnmapArgs { vpn: self.vpn, dealloc: self.dealloc, panic }
    }
}


/// Why an operation on memory could not be carried out. An operation that
/// fails may have done part of its work: what it worked on is not to be
/// used afterwards.
#[derive(Clone, Copy, Debug, PartialEq, Eq, Structural)]
pub enum MemError {
    /// The frame allocator has fewer frames left than the operation takes.
    OutOfFrames,
}

/// A directory page without any entry.
pub open spec fn zero_table() -> Seq<u64> {
    Seq::new(512, |i: int| 0u64)
}

/// A three-level page table with the frames it owns.
pub struct PageTable {
    root_ppn: PhysPageNum,
    /// The directory pages, by page number, 512 entries each.
    tables: BTreeMap<u64, Vec<u64>>,
    /// The leaf frames handed over with a mapping, by page number.
    frames: BTreeMap<u64, Vec<u8>>,
    /// For each directory page, the indexes that lead to it from the root.
    paths: Ghost<Map<u64, Seq<int>>>,
}

impl View for PageTable {
    type V = Map<u64, PageTableEntry>;

    /// The valid leaf entry of every virtual page number that has one.
    closed spec fn view(&self) -> Map<u64, PageTableEntry> {
        Map::new(
            |v: u64| v < VPN_LIMIT && self.leaf(VirtPageNum(v)).is_some(),
            |v: u64| PageTableEntry { bits: self.leaf(VirtPageNum(v)).unwrap() },
        )
    }
}

impl PageTable {
    /// Page number of the root directory.
    pub closed spec fn root(&self) -> u64 {
        self.root_ppn.0
    }

    /// Page numbers of the directory pages.
    pub closed spec fn table_frames(&self) -> Set<u64> {
        self.tables@.dom()
    }

    /// The bytes of each owned leaf frame, by page number.
    pub closed spec fn frames(&self) -> Map<u64, Seq<u8>> {
        Map::new(|p: u64| self.frames@.contains_key(p), |p: u64| self.frames@[p]@)
    }

    /// Page numbers of all frames the table owns.
    pub open spec fn owned(&self) -> Set<u64> {
        self.table_frames().union(self.frames().dom())
    }

    /// Whether all owned frames are handed out by `allocator`.
    pub open spec fn accounted(&self, allocator: &StackFrameAllocator) -> bool {
        forall|p: u64| #[trigger] self.owned().contains(p) ==> allocator.is_allocated(p)
    }

    spec fn entry(&self, t: u64, i: int) -> u64 {
        self.tables@[t]@[i]
    }

    spec fn child(&self, t: u64, i: int) -> Option<u64> {
        if pte_valid(self.entry(t, i)) {
            Some(pte_ppn(self.entry(t, i)))
        } else {
            None
        }
    }

    spec fn l1_table(&self, vpn: VirtPageNum) -> Option<u64> {
        self.child(self.root(), vpn.spec_index(0))
    }

    spec fn l0_table(&self, vpn: VirtPageNum) -> Option<u64> {
        match self.l1_table(vpn) {
            Some(t) => self.child(t, vpn.spec_index(1)),
            None => None,
        }
    }

    spec fn leaf(&self, vpn: VirtPageNum) -> Option<u64> {
        match self.l0_table(vpn) {
            Some(t) => if pte_valid(self.entry(t, vpn.spec_index(2))) {
                Some(self.entry(t, vpn.spec_index(2)))
            } else {
                None
            },
            None => None,
        }
    }

    /// How many directory pages the walk to `vpn` lacks.
    pub closed spec fn missing_tables(&self, vpn: VirtPageNum) -> nat {
        if self.l1_table(vpn).is_none() {
            2
        } else if self.l0_table(vpn).is_none() {
            1
        } else {
            0
        }
    }

    /// For each page, how many directory pages the walk to it lacks.
    pub open spec fn lacks(&self) -> Map<int, nat> {
        Map::new(
            |v: int| 0 <= v < VPN_LIMIT,
            |v: int| self.missing_tables(VirtPageNum(v as u64)),
        )
    }

    /// The directories form a tree below the root, and no frame is owned twice.
    pub closed spec fn inv(&self) -> bool {
        &&& self.tables@.contains_key(self.root())
        &&& self.paths@.dom() == self.tables@.dom()
        &&& self.paths@[self.root()] == Seq::<int>::empty()
        &&& forall|t: u64| #[trigger]
            self.tables@.contains_key(t) ==> self.tables@[t]@.len() == 512 && t < PPN_LIMIT
        &&& forall|t: u64, i: int|
            self.tables@.contains_key(t) && 0 <= i < 512 && self.paths@[t].len() < 2
                && pte_valid(#[trigger] self.entry(t, i)) ==> {
                &&& self.tables@.contains_key(pte_ppn(self.entry(t, i)))
                &&& self.paths@[pte_ppn(self.entry(t, i))] == self.paths@[t].push(i)
            }
        &&& forall|p: u64| #[trigger]
            self.frames@.contains_key(p) ==> self.frames@[p]@.len() == 4096
                && !self.tables@.contains_key(p) && p < PPN_LIMIT
    }

    proof fn lemma_walk(&self, vpn: VirtPageNum)
        requires
            self.inv(),
            vpn.wf(),
        ensures
            self.l1_table(vpn) matches Some(t) ==> self.tables@.contains_key(t)
                && self.paths@[t] == seq![vpn.spec_index(0)],
            self.l0_table(vpn) matches Some(t) ==> self.tables@.contains_key(t)
                && self.paths@[t] == seq![vpn.spec_index(0), vpn.spec_index(1)],
    {
        let i0 = vpn.spec_index(0);
        let i1 = vpn.spec_index(1);
        if let Some(t1) = self.l1_table(vpn) {
            assert(pte_valid(self.entry(self.root(), i0)));
            assert(self.paths@[t1] =~= seq![i0]);
            if let Some(t0) = self.l0_table(vpn) {
                assert(pte_valid(self.entry(t1, i1)));
                assert(self.paths@[t0] =~= seq![i0, i1]);
            }
        }
    }

    /// No walk lacks more than the two directories below the root.
    pub proof fn lemma_lacks_bound(&self)
        ensures
            forall|v: int| 0 <= v < VPN_LIMIT ==> #[trigger] self.lacks()[v] <= 2,
    {
    }

    /// The properties of a well-formed table that other modules rely on.
    pub proof fn lemma_inv_facts(&self)
        requires
            self.inv(),
        ensures
            self.table_frames().contains(self.root()),
            self.table_frames().finite(),
            self.frames().dom().finite(),
            self.table_frames().disjoint(self.frames().dom()),
            forall|p: u64| #[trigger] self.owned().contains(p) ==> p < PPN_LIMIT,
            forall|p: u64| #[trigger] self.frames().contains_key(p) ==> self.frames()[p].len() == 4096,
            forall|v: u64| #[trigger] self@.contains_key(v) ==> v < VPN_LIMIT && self@[v].spec_is_valid(),
    {
        assert(self.frames().dom() =~= self.frames@.dom());
    }

    proof fn lemma_install_child(s0: &PageTable, s1: &PageTable, parent: u64, idx: int, c: u64)
        requires
            s0.inv(),
            s0.tables@.contains_key(parent),
            s0.paths@[parent].len() < 2,
            0 <= idx < 512,
            !pte_valid(s0.entry(parent, idx)),
            !s0.tables@.contains_key(c),
            !s0.frames@.contains_key(c),
            c < PPN_LIMIT,
            s1.root_ppn == s0.root_ppn,
            s1.tables@.dom() == s0.tables@.dom().insert(c),
            s1.tables@[c]@ == zero_table(),
            s1.tables@[parent]@ == s0.tables@[parent]@.update(idx, pte_bits(c, FLAG_V)),
            forall|t: u64|
                s0.tables@.contains_key(t) && t != parent ==> #[trigger] s1.tables@[t]
                    == s0.tables@[t],
            s1.frames == s0.frames,
            s1.paths@ == s0.paths@.insert(c, s0.paths@[parent].push(idx)),
        ensures
            s1.inv(),
            s1@ == s0@,
            s1.frames() == s0.frames(),
            s1.table_frames() == s0.table_frames().insert(c),
            s1.child(parent, idx) == Some(c),
            forall|t: u64, i: int|
                s0.tables@.contains_key(t) && 0 <= i < 512 && !(t == parent && i == idx)
                    ==> #[trigger] s1.entry(t, i) == s0.entry(t, i),
            forall|i: int| 0 <= i < 512 ==> #[trigger] s1.entry(c, i) == 0,
    {
        lemma_pte_fields(c, FLAG_V);
        lemma_pte_basics(0);
        assert(FLAG_V & FLAG_V == FLAG_V) by (bit_vector);
        assert forall|t: u64, i: int|
            s0.tables@.contains_key(t) && 0 <= i < 512 && !(t == parent && i == idx)
                implies #[trigger] s1.entry(t, i) == s0.entry(t, i) by {
            if t != parent {
                assert(s1.tables@[t] == s0.tables@[t]);
            }
        }
        assert forall|i: int| 0 <= i < 512 implies #[trigger] s1.entry(c, i) == 0 by {}
        assert(s1.entry(parent, idx) == pte_bits(c, FLAG_V));
        assert forall|t: u64| #[trigger] s1.tables@.contains_key(t) implies s1.tables@[t]@.len()
            == 512 && t < PPN_LIMIT by {
            if t != c && t != parent {
                assert(s1.tables@[t] == s0.tables@[t]);
            }
            if t != c {
                assert(s0.tables@.contains_key(t));
            }
        }
        assert forall|t: u64, i: int|
            s1.tables@.contains_key(t) && 0 <= i < 512 && s1.paths@[t].len() < 2 && pte_valid(
                #[trigger] s1.entry(t, i),
            ) implies {
            &&& s1.tables@.contains_key(pte_ppn(s1.entry(t, i)))
            &&& s1.paths@[pte_ppn(s1.entry(t, i))] == s1.paths@[t].push(i)
        } by {
            if t == c {
                assert(s1.entry(c, i) == 0);
            } else if t == parent && i == idx {
            } else {
                assert(s1.entry(t, i) == s0.entry(t, i));
                assert(s0.tables@.contains_key(pte_ppn(s0.entry(t, i))));
            }
        }
        assert(s1.paths@[s1.root()] == Seq::<int>::empty()) by {
            assert(s0.tables@.contains_key(s0.root()));
        }
        assert(s1.inv());
        assert forall|vpn: VirtPageNum| s1.leaf(vpn) == s0.leaf(vpn) by {
            Self::lemma_install_child_leaf(s0, s1, parent, idx, c, vpn);
        }
        assert(s1@ =~= s0@);
        assert(s1.frames() =~= s0.frames());
    }

    proof fn lemma_install_child_leaf(
        s0: &PageTable,
        s1: &PageTable,
        parent: u64,
        idx: int,
        c: u64,
        vpn: VirtPageNum,
    )
        requires
            s0.inv(),
            s0.tables@.contains_key(parent),
            s0.paths@[parent].len() < 2,
            0 <= idx < 512,
            !pte_valid(s0.entry(parent, idx)),
            !s0.tables@.contains_key(c),
            s1.root_ppn == s0.root_ppn,
            s1.entry(parent, idx) == pte_bits(c, FLAG_V),
            c < PPN_LIMIT,
            forall|t: u64, i: int|
                s0.tables@.contains_key(t) && 0 <= i < 512 && !(t == parent && i == idx)
                    ==> #[trigger] s1.entry(t, i) == s0.entry(t, i),
            forall|i: int| 0 <= i < 512 ==> #[trigger] s1.entry(c, i) == 0,
        ensures
            s1.leaf(vpn) == s0.leaf(vpn),
            !(parent == s0.root() && idx == vpn.spec_index(0)) ==> s1.l1_table(vpn)
                == s0.l1_table(vpn),
            !(parent == s0.root() && idx == vpn.spec_index(0)) && !(s0.l1_table(vpn) == Some(
                parent,
            ) && idx == vpn.spec_index(1)) ==> s1.l0_table(vpn) == s0.l0_table(vpn),
    {
        lemma_pte_fields(c, FLAG_V);
        lemma_pte_basics(0);
        assert(FLAG_V & FLAG_V == FLAG_V) by (bit_vector);
        let i0 = vpn.spec_index(0);
        let i1 = vpn.spec_index(1);
        let i2 = vpn.spec_index(2);
        let root = s0.root();
        if parent == root && idx == i0 {
            assert(s0.l1_table(vpn).is_none());
            assert(s1.l1_table(vpn) == Some(c));
            assert(s1.entry(c, i1) == 0);
            assert(s1.l0_table(vpn).is_none());
        } else {
            assert(s1.entry(root, i0) == s0.entry(root, i0));
            if let Some(t1) = s0.l1_table(vpn) {
                assert(pte_valid(s0.entry(root, i0)));
                assert(s0.tables@.contains_key(t1));
                assert(s0.paths@[t1] == s0.paths@[root].push(i0));
                if parent == t1 && idx == i1 {
                    assert(s0.l0_table(vpn).is_none());
                    assert(s1.l0_table(vpn) == Some(c));
                    assert(s1.entry(c, i2) == 0);
                } else {
                    assert(s1.entry(t1, i1) == s0.entry(t1, i1));
                    if let Some(t0) = s0.l0_table(vpn) {
                        assert(pte_valid(s0.entry(t1, i1)));
                        assert(s0.tables@.contains_key(t0));
                        assert(s0.paths@[t0] == s0.paths@[t1].push(i1));
                        assert(s0.paths@[t0].len() == 2);
                        assert(t0 != parent);
                        assert(s1.entry(t0, i2) == s0.entry(t0, i2));
                    }
                }
            }
        }
    }

    /// What a new directory below entry `idx` of `parent` does to the walk to `v`.
    proof fn lemma_install_child_missing(
        s0: &PageTable,
        s1: &PageTable,
        parent: u64,
        idx: int,
        c: u64,
        v: VirtPageNum,
    )
        requires
            s0.inv(),
            s0.tables@.contains_key(parent),
            s0.paths@[parent].len() < 2,
            0 <= idx < 512,
            s0.child(parent, idx).is_none(),
            s1.child(parent, idx) == Some(c),
            !s0.tables@.contains_key(c),
            s1.root_ppn == s0.root_ppn,
            forall|t: u64, i: int|
                s0.tables@.contains_key(t) && 0 <= i < 512 && !(t == parent && i == idx)
                    ==> #[trigger] s1.entry(t, i) == s0.entry(t, i),
            forall|i: int| 0 <= i < 512 ==> #[trigger] s1.entry(c, i) == 0,
        ensures
            parent == s0.root() ==> s1.missing_tables(v) == (if v.spec_index(0) == idx {
                1nat
            } else {
                s0.missing_tables(v)
            }),
            parent != s0.root() ==> s1.missing_tables(v) == (if s0.l1_table(v) == Some(parent)
                && v.spec_index(1) == idx {
                0nat
            } else {
                s0.missing_tables(v)
            }),
    {
        lemma_pte_basics(0);
        let i0 = v.spec_index(0);
        let i1 = v.spec_index(1);
        let root = s0.root();
        if parent == root && idx == i0 {
            assert(s0.l1_table(v).is_none());
            assert(s1.l1_table(v) == Some(c));
            assert(s1.entry(c, i1) == 0);
            assert(s1.l0_table(v).is_none());
        } else {
            assert(s1.entry(root, i0) == s0.entry(root, i0));
            assert(s1.l1_table(v) == s0.l1_table(v));
            if let Some(t1) = s0.l1_table(v) {
                assert(pte_valid(s0.entry(root, i0)));
                assert(s0.tables@.contains_key(t1));
                assert(s0.paths@[t1] == s0.paths@[root].push(i0));
                assert(s0.paths@[t1].len() == 1);
                if parent == t1 && idx == i1 {
                    assert(s1.l0_table(v) == Some(c));
                } else {
                    assert(s1.entry(t1, i1) == s0.entry(t1, i1));
                    assert(s1.l0_table(v) == s0.l0_table(v));
                }
            }
        }
    }

    /// What the walk to `v` lacks after the directories on the walk to `vpn`
    /// were created, in two steps: `s1` after the upper one, `s2` after the
    /// lower one.
    proof fn lemma_created_missing(
        s0: &PageTable,
        s1: &PageTable,
        s2: &PageTable,
        vpn: VirtPageNum,
        t1: u64,
        t0: u64,
        v: VirtPageNum,
    )
        requires
            s0.inv(),
            s1.inv(),
            vpn.wf(),
            v.wf(),
            Self::stepped(s0, s1, s0.root(), vpn.spec_index(0), t1),
            Self::stepped(s1, s2, t1, vpn.spec_index(1), t0),
        ensures
            s2.missing_tables(v) == missing_after(
                s0.missing_tables(v),
                v.0 as int,
                vpn.0 as int,
                vpn.0 + 1,
            ),
    {
        let a = v.0 as int;
        let b = vpn.0 as int;
        assert(a / 0x4_0000 == (a / 512) / 512);
        assert(b / 0x4_0000 == (b / 512) / 512);
        let root = s0.root();
        let j0 = vpn.spec_index(0);
        let j1 = vpn.spec_index(1);
        assert(s1.l1_table(vpn) == Some(t1));
        s1.lemma_walk(vpn);
        s1.lemma_walk(v);
        assert(s1.paths@[root].len() == 0);
        assert(t1 != s1.root());
        if s0.child(root, j0).is_none() {
            Self::lemma_install_child_missing(s0, s1, root, j0, t1, v);
        }
        if s1.child(t1, j1).is_none() {
            Self::lemma_install_child_missing(s1, s2, t1, j1, t0, v);
        }
        if s1.l1_table(v) == Some(t1) {
            assert(seq![v.spec_index(0)][0] == seq![j0][0]);
        }
    }

    /// One step of the creating walk: the directory `c` below entry `idx` of
    /// `parent` was there, or is new and empty.
    spec fn stepped(s0: &PageTable, s1: &PageTable, parent: u64, idx: int, c: u64) -> bool {
        &&& s0.tables@.contains_key(parent)
        &&& s0.paths@[parent].len() < 2
        &&& 0 <= idx < 512
        &&& s1.child(parent, idx) == Some(c)
        &&& s1.root_ppn == s0.root_ppn
        &&& s0.child(parent, idx).is_some() ==> s1 == s0
        &&& s0.child(parent, idx).is_none() ==> {
            &&& !s0.tables@.contains_key(c)
            &&& forall|t: u64, i: int|
                s0.tables@.contains_key(t) && 0 <= i < 512 && !(t == parent && i == idx)
                    ==> #[trigger] s1.entry(t, i) == s0.entry(t, i)
            &&& forall|i: int| 0 <= i < 512 ==> #[trigger] s1.entry(c, i) == 0
        }
    }

    proof fn lemma_set_leaf(s0: &PageTable, s1: &PageTable, vpn: VirtPageNum, t0: u64, bits: u64)
        requires
            s0.inv(),
            vpn.wf(),
            s0.l0_table(vpn) == Some(t0),
            s1.root_ppn == s0.root_ppn,
            s1.tables@.dom() == s0.tables@.dom(),
            s1.tables@[t0]@ == s0.tables@[t0]@.update(vpn.spec_index(2), bits),
            forall|t: u64|
                s0.tables@.contains_key(t) && t != t0 ==> #[trigger] s1.tables@[t]
                    == s0.tables@[t],
            s1.paths == s0.paths,
            forall|p: u64| #[trigger]
                s1.frames@.contains_key(p) ==> s1.frames@[p]@.len() == 4096
                    && !s1.tables@.contains_key(p) && p < PPN_LIMIT,
        ensures
            s1.inv(),
            s1.table_frames() == s0.table_frames(),
            pte_valid(bits) ==> s1@ == s0@.insert(vpn.0, PageTableEntry { bits }),
            !pte_valid(bits) ==> s1@ == s0@.remove(vpn.0),
            forall|v: VirtPageNum| s1.missing_tables(v) == s0.missing_tables(v),
    {
        s0.lemma_walk(vpn);
        let i2 = vpn.spec_index(2);
        assert forall|t: u64, i: int|
            s0.tables@.contains_key(t) && 0 <= i < 512 && !(t == t0 && i == i2)
                implies #[trigger] s1.entry(t, i) == s0.entry(t, i) by {
            if t != t0 {
                assert(s1.tables@[t] == s0.tables@[t]);
            }
        }
        assert forall|t: u64| #[trigger] s1.tables@.contains_key(t) implies s1.tables@[t]@.len()
            == 512 && t < PPN_LIMIT by {
            if t != t0 {
                assert(s1.tables@[t] == s0.tables@[t]);
            }
            assert(s0.tables@.contains_key(t));
        }
        assert forall|t: u64, i: int|
            s1.tables@.contains_key(t) && 0 <= i < 512 && s1.paths@[t].len() < 2 && pte_valid(
                #[trigger] s1.entry(t, i),
            ) implies {
            &&& s1.tables@.contains_key(pte_ppn(s1.entry(t, i)))
            &&& s1.paths@[pte_ppn(s1.entry(t, i))] == s1.paths@[t].push(i)
        } by {
            assert(t != t0);
            assert(s1.entry(t, i) == s0.entry(t, i));
        }
        assert(s1.inv());
        assert forall|v: VirtPageNum|
            s1.l1_table(v) == s0.l1_table(v) && s1.l0_table(v) == s0.l0_table(v) by {
            let j0 = v.spec_index(0);
            let j1 = v.spec_index(1);
            assert(s0.paths@[s0.root()].len() == 0);
            assert(s1.entry(s0.root(), j0) == s0.entry(s0.root(), j0));
            if let Some(t1) = s0.l1_table(v) {
                assert(pte_valid(s0.entry(s0.root(), j0)));
                assert(s0.paths@[t1] == s0.paths@[s0.root()].push(j0));
                assert(s1.entry(t1, j1) == s0.entry(t1, j1));
            }
        }
        assert forall|v: u64| v < VPN_LIMIT && v != vpn.0 implies s1.leaf(VirtPageNum(v))
            == s0.leaf(VirtPageNum(v)) by {
            let w = VirtPageNum(v);
            if let Some(u0) = s0.l0_table(w) {
                s0.lemma_walk(w);
                if u0 == t0 && w.spec_index(2) == i2 {
                    assert(seq![w.spec_index(0), w.spec_index(1)][0] == seq![
                        vpn.spec_index(0),
                        vpn.spec_index(1),
                    ][0]);
                    assert(seq![w.spec_index(0), w.spec_index(1)][1] == seq![
                        vpn.spec_index(0),
                        vpn.spec_index(1),
                    ][1]);
                    lemma_indexes_determine_vpn(w, vpn);
                }
                assert(s1.entry(u0, w.spec_index(2)) == s0.entry(u0, w.spec_index(2)));
            }
        }
        assert(s1.entry(t0, i2) == bits);
        if pte_valid(bits) {
            assert(s1@ =~= s0@.insert(vpn.0, PageTableEntry { bits }));
        } else {
            assert(s1@ =~= s0@.remove(vpn.0));
        }
    }
}


impl PageTable {
    /// A table with an empty root directory in a freshly allocated frame;
    /// fails exactly when no frame is left.
    pub fn new(allocator: &mut StackFrameAllocator) -> (r: Result<Self, MemError>)
        requires
            old(allocator).wf(),
        ensures
            final(allocator).wf(),
            r.is_ok() <==> old(allocator).free_count() > 0,
            match r {
                Ok(pt) => {
                    &&& pt.inv()
                    &&& pt@ == Map::<u64, PageTableEntry>::empty()
                    &&& pt.frames() == Map::<u64, Seq<u8>>::empty()
                    &&& pt.table_frames() == set![pt.root()]
                    &&& old(allocator).next() == Some(pt.root())
                    &&& !old(allocator).is_allocated(pt.root())
                    &&& final(allocator).allocated() == old(allocator).allocated().insert(pt.root())
                    &&& final(allocator).free_count() == old(allocator).free_count() - 1
                    &&& forall|v: VirtPageNum| pt.missing_tables(v) == 2
                },
                Err(_) => final(allocator).allocated() == old(allocator).allocated(),
            },
    {
        let frame = match frame_alloc(allocator) {
            Some(frame) => frame,
            None => {
                return Err(MemError::OutOfFrames);
            },
        };
        let root = frame.ppn;
        let mut tables: BTreeMap<u64, Vec<u64>> = BTreeMap::new();
        tables.insert(root.0, Self::empty_table());
        let frames: BTreeMap<u64, Vec<u8>> = BTreeMap::new();
        let pt = PageTable {
            root_ppn: root,
            tables,
            frames,
            paths: Ghost(Map::<u64, Seq<int>>::empty().insert(root.0, Seq::<int>::empty())),
        };
        proof {
            lemma_pte_basics(0);
            assert(pt.paths@.dom() =~= pt.tables@.dom());
            assert forall|v: VirtPageNum| pt.missing_tables(v) == 2 by {
                assert(pt.entry(root.0, v.spec_index(0)) == 0);
            }
            assert forall|v: VirtPageNum| pt.leaf(v).is_none() by {
                assert(pt.entry(root.0, v.spec_index(0)) == 0);
            }
            assert(pt@ =~= Map::<u64, PageTableEntry>::empty());
            assert(pt.frames() =~= Map::<u64, Seq<u8>>::empty());
            assert(pt.table_frames() =~= set![pt.root()]);
        }
        Ok(pt)
    }

    fn empty_table() -> (r: Vec<u64>)
        ensures
            r@ == zero_table(),
    {
        let mut words: Vec<u64> = Vec::new();
        let mut i: usize = 0;
        while i < 512
            invariant
                i <= 512,
                words@.len() == i,
                forall|j: int| 0 <= j < i ==> words@[j] == 0u64,
            decreases 512 - i,
        {
            words.push(0u64);
            i += 1;
        }
        assert(words@ =~= zero_table());
        words
    }

    /// The value of the `satp` register that selects this table: mode 8 above the root's page number.
    pub fn token(&self) -> (r: u64)
        requires
            self.inv(),
        ensures
            r == 0x8000_0000_0000_0000 + self.root(),
    {
        proof {
            self.lemma_inv_facts();
        }
        0x8000_0000_0000_0000u64 + self.root_ppn.0
    }

    /// Page number of the root directory.
    pub fn root_ppn(&self) -> (r: PhysPageNum)
        ensures
            r.0 == self.root(),
    {
        self.root_ppn
    }

    fn read_entry(&self, t: u64, i: usize) -> (r: u64)
        requires
            self.inv(),
            self.tables@.contains_key(t),
            i < 512,
        ensures
            r == self.entry(t, i as int),
    {
        let table = self.tables.get(&t).unwrap();
        table[i]
    }

    fn write_entry(&mut self, t: u64, i: usize, bits: u64)
        requires
            old(self).inv(),
            old(self).tables@.contains_key(t),
            i < 512,
        ensures
            final(self).root_ppn == old(self).root_ppn,
            final(self).tables@.dom() == old(self).tables@.dom(),
            final(self).tables@[t]@ == old(self).tables@[t]@.update(i as int, bits),
            forall|u: u64|
                old(self).tables@.contains_key(u) && u != t ==> #[trigger] final(self).tables@[u]
                    == old(self).tables@[u],
            final(self).frames == old(self).frames,
            final(self).paths == old(self).paths,
    {
        let mut table = self.tables.remove(&t).unwrap();
        table[i] = bits;
        self.tables.insert(t, table);
        assert(self.tables@.dom() =~= old(self).tables@.dom());
    }

    /// The directory below entry `idx` of directory `parent`, created first if it is missing.
    fn find_or_create(
        &mut self,
        allocator: &mut StackFrameAllocator,
        parent: u64,
        idx: usize,
    ) -> (r: Result<u64, MemError>)
        requires
            old(self).inv(),
            old(allocator).wf(),
            old(self).accounted(old(allocator)),
            old(self).tables@.contains_key(parent),
            old(self).paths@[parent].len() < 2,
            idx < 512,
        ensures
            final(allocator).wf(),
            old(self).child(parent, idx as int).is_some() ==> {
                &&& r == Ok::<u64, MemError>(old(self).child(parent, idx as int).unwrap())
                &&& *final(self) == *old(self)
                &&& *final(allocator) == *old(allocator)
            },
            old(self).child(parent, idx as int).is_none() ==> (r.is_ok() <==> old(
                allocator,
            ).free_count() > 0),
            old(self).child(parent, idx as int).is_none() ==> (r matches Ok(c) ==> {
                &&& !old(allocator).is_allocated(c)
                &&& final(allocator).allocated() == old(allocator).allocated().insert(c)
                &&& final(allocator).free_count() == old(allocator).free_count() - 1
                &&& final(self).table_frames() == old(self).table_frames().insert(c)
                &&& !old(self).table_frames().contains(c)
                &&& forall|i: int| 0 <= i < 512 ==> #[trigger] final(self).entry(c, i) == 0
            }),
            r matches Ok(c) ==> {
                &&& final(self).inv()
                &&& final(self).accounted(final(allocator))
                &&& final(self).root_ppn == old(self).root_ppn
                &&& final(self)@ == old(self)@
                &&& final(self).frames() == old(self).frames()
                &&& final(self).child(parent, idx as int) == Some(c)
                &&& final(self).tables@.contains_key(c)
                &&& final(self).paths@[c] == old(self).paths@[parent].push(idx as int)
                &&& final(self).paths@[parent] == old(self).paths@[parent]
                &&& forall|t: u64, i: int|
                    old(self).tables@.contains_key(t) && 0 <= i < 512 && !(t == parent && i
                        == idx) ==> #[trigger] final(self).entry(t, i) == old(self).entry(t, i)
                &&& forall|t: u64|
                    old(self).tables@.contains_key(t) ==> final(self).tables@.contains_key(t)
                &&& Self::stepped(old(self), final(self), parent, idx as int, c)
            },
    {
        let bits = self.read_entry(parent, idx);
        let entry = PageTableEntry { bits };
        if entry.is_valid() {
            return Ok(entry.ppn().0);
        }
        let frame = match frame_alloc(allocator) {
            Some(frame) => frame,
            None => {
                return Err(MemError::OutOfFrames);
            },
        };
        let c = frame.ppn.0;
        let ghost s0 = *self;
        proof {
            self.lemma_inv_facts();
            assert(!self.owned().contains(c));
            assert(!self.table_frames().contains(c));
            assert(!self.frames().dom().contains(c));
            assert(!self.frames@.contains_key(c));
        }
        self.tables.insert(c, Self::empty_table());
        proof {
            let path = self.paths@[parent].push(idx as int);
            self.paths@ = self.paths@.insert(c, path);
        }
        let ghost mid = *self;
        let link = PageTableEntry::new(PhysPageNum(c), PTEFlags { bits: FLAG_V });
        let mut table = self.tables.remove(&parent).unwrap();
        table[idx] = link.bits;
        self.tables.insert(parent, table);
        proof {
            assert(self.tables@.dom() =~= s0.tables@.dom().insert(c));
            assert forall|t: u64| s0.tables@.contains_key(t) && t != parent implies #[trigger]
                self.tables@[t] == s0.tables@[t] by {}
            Self::lemma_install_child(&s0, self, parent, idx as int, c);
            assert forall|p: u64| #[trigger] self.owned().contains(p) implies allocator.is_allocated(
                p,
            ) by {
                if p != c {
                    assert(s0.owned().contains(p));
                    assert(old(allocator).allocated().contains(p));
                }
                assert(allocator.allocated().contains(p));
            }
        }
        Ok(c)
    }

    /// The leaf directory and the index in it of the entry for `vpn`; `None`
    /// when a directory on the way is missing.
    fn find_pte(&self, vpn: VirtPageNum) -> (r: Option<(u64, usize)>)
        requires
            self.inv(),
            vpn.wf(),
        ensures
            match r {
                Some((t, i)) => self.l0_table(vpn) == Some(t) && i == vpn.spec_index(2)
                    && self.tables@.contains_key(t),
                None => self.l0_table(vpn).is_none(),
            },
    {
        let idx = vpn.indexes();
        proof {
            self.lemma_walk(vpn);
        }
        let e0 = PageTableEntry { bits: self.read_entry(self.root_ppn.0, idx[0]) };
        if !e0.is_valid() {
            return None;
        }
        let t1 = e0.ppn().0;
        let e1 = PageTableEntry { bits: self.read_entry(t1, idx[1]) };
        if !e1.is_valid() {
            return None;
        }
        Some((e1.ppn().0, idx[2]))
    }

    /// The leaf directory for `vpn`, after creating the directories that the
    /// walk lacks; fails exactly when the allocator cannot supply them.
    fn find_pte_create(&mut self, allocator: &mut StackFrameAllocator, vpn: VirtPageNum) -> (r:
        Result<(u64, usize), MemError>)
        requires
            old(self).inv(),
            old(allocator).wf(),
            old(self).accounted(old(allocator)),
            vpn.wf(),
        ensures
            final(allocator).wf(),
            r.is_ok() <==> old(allocator).free_count() >= old(self).missing_tables(vpn),
            r matches Ok((t, i)) ==> {
                &&& final(self).inv()
                &&& final(self).accounted(final(allocator))
                &&& final(self).root() == old(self).root()
                &&& final(self)@ == old(self)@
                &&& final(self).frames() == old(self).frames()
                &&& final(self).l0_table(vpn) == Some(t)
                &&& i == vpn.spec_index(2)
                &&& final(self).missing_tables(vpn) == 0
                &&& forall|v: VirtPageNum|
                    v.wf() ==> #[trigger] final(self).missing_tables(v) == missing_after(
                        old(self).missing_tables(v),
                        v.0 as int,
                        vpn.0 as int,
                        vpn.0 + 1,
                    )
                &&& old(self).table_frames().subset_of(final(self).table_frames())
                &&& final(allocator).free_count() == old(allocator).free_count() - old(
                    self,
                ).missing_tables(vpn)
                &&& forall|p: u64|
                    final(allocator).is_allocated(p) <==> (old(allocator).is_allocated(p) || (
                    final(self).table_frames().contains(p) && !old(self).table_frames().contains(
                        p,
                    )))
                &&& forall|p: u64|
                    final(self).table_frames().contains(p) && !old(self).table_frames().contains(p)
                        ==> !old(allocator).is_allocated(p)
            },
    {
        let idx = vpn.indexes();
        let ghost s0 = *self;
        let ghost a0 = *allocator;
        let root = self.root_ppn.0;
        let t1 = match self.find_or_create(allocator, root, idx[0]) {
            Ok(t) => t,
            Err(e) => {
                return Err(e);
            },
        };
        let ghost s1 = *self;
        let ghost a1 = *allocator;
        proof {
            assert(s1.paths@[t1].len() == 1);
            assert forall|p: u64| a1.is_allocated(p) <==> (a0.is_allocated(p) || (
            s1.table_frames().contains(p) && !s0.table_frames().contains(p))) by {
                if s0.child(root, idx[0] as int).is_none() {
                    assert(a1.allocated().contains(p) == a0.allocated().insert(t1).contains(p));
                    assert(a0.allocated().contains(p) == a0.is_allocated(p));
                    assert(a1.allocated().contains(p) == a1.is_allocated(p));
                    assert(s1.table_frames().contains(p) == s0.table_frames().insert(t1).contains(p));
                } else {
                    assert(s1 == s0);
                    assert(a1 == a0);
                }
            }
        }
        let t0 = match self.find_or_create(allocator, t1, idx[1]) {
            Ok(t) => t,
            Err(e) => {
                proof {
                    if s0.child(root, idx[0] as int).is_some() {
                        assert(s0.l1_table(vpn) == Some(t1));
                        assert(s0.l0_table(vpn) == s1.child(t1, idx[1] as int));
                    }
                }
                return Err(e);
            },
        };
        proof {
            assert(root != t1) by {
                assert(s1.paths@[root].len() == 0);
            }
            assert(self.entry(root, idx[0] as int) == s1.entry(root, idx[0] as int));
            assert(self.l1_table(vpn) == Some(t1));
            assert(self.l0_table(vpn) == Some(t0));
            if s0.child(root, idx[0] as int).is_some() {
                assert(s0.l1_table(vpn) == Some(t1));
                assert(s0.l0_table(vpn) == s1.child(t1, idx[1] as int));
            } else {
                assert(s0.l1_table(vpn).is_none());
                assert(s1.child(t1, idx[1] as int).is_none()) by {
                    lemma_pte_basics(0);
                    assert(s1.entry(t1, idx[1] as int) == 0);
                }
            }
            assert forall|p: u64|
                allocator.is_allocated(p) <==> (a0.is_allocated(p) || (self.table_frames().contains(
                    p,
                ) && !s0.table_frames().contains(p))) by {
                if s1.child(t1, idx[1] as int).is_none() {
                    assert(allocator.allocated().contains(p) == a1.allocated().insert(t0).contains(
                        p,
                    ));
                    assert(a1.allocated().contains(p) == a1.is_allocated(p));
                }
                if s0.table_frames().contains(p) {
                    assert(s0.owned().contains(p));
                }
            }
            assert forall|p: u64|
                self.table_frames().contains(p) && !s0.table_frames().contains(
                    p,
                ) implies !a0.is_allocated(p) by {
                if s1.table_frames().contains(p) {
                    if s0.child(root, idx[0] as int).is_none() {
                        assert(p == t1);
                    }
                } else {
                    assert(p == t0);
                    assert(!a1.is_allocated(p));
                }
            }
            assert forall|v: VirtPageNum| v.wf() implies #[trigger] self.missing_tables(v)
                == missing_after(s0.missing_tables(v), v.0 as int, vpn.0 as int, vpn.0 + 1) by {
                Self::lemma_created_missing(&s0, &s1, self, vpn, t1, t0, v);
            }
        }
        Ok((t0, idx[2]))
    }
}


/// The bytes of `page` with `data` written over them from `offset` on.
pub open spec fn splice(page: Seq<u8>, offset: int, data: Seq<u8>) -> Seq<u8> {
    Seq::new(
        page.len(),
        |i: int|
            if offset <= i < offset + data.len() {
                data[i - offset]
            } else {
                page[i]
            },
    )
}

/// Whether the numbers of `s` grow from each to the next.
pub open spec fn increasing(s: Seq<u64>) -> bool {
    forall|i: int, j: int| 0 <= i < j < s.len() ==> s[i] < s[j]
}

/// There is one way only to list the members of a set smallest first.
pub proof fn lemma_increasing_unique(a: Seq<u64>, b: Seq<u64>)
    requires
        increasing(a),
        increasing(b),
        forall|p: u64| a.contains(p) <==> b.contains(p),
    ensures
        a == b,
    decreases a.len(),
{
    if a.len() == 0 {
        if b.len() > 0 {
            assert(b.contains(b[0]));
        }
        assert(a =~= b);
    } else {
        let x = a.last();
        assert(a.contains(x));
        assert(b.contains(x));
        assert(b.len() > 0);
        let y = b.last();
        assert(b.contains(y));
        assert(a.contains(y));
        let i = choose|i: int| 0 <= i < b.len() && b[i] == x;
        let j = choose|j: int| 0 <= j < a.len() && a[j] == y;
        assert(x == y) by {
            if i < b.len() - 1 {
                assert(b[i] < b[b.len() - 1]);
            }
            if j < a.len() - 1 {
                assert(a[j] < a[a.len() - 1]);
            }
        }
        let a1 = a.drop_last();
        let b1 = b.drop_last();
        assert forall|p: u64| a1.contains(p) <==> b1.contains(p) by {
            if a1.contains(p) {
                let k = choose|k: int| 0 <= k < a1.len() && a1[k] == p;
                assert(a[k] == p && a[k] < a[a.len() - 1]);
                assert(a.contains(p));
                let l = choose|l: int| 0 <= l < b.len() && b[l] == p;
                assert(l < b.len() - 1);
                assert(b1[l] == p);
            }
            if b1.contains(p) {
                let k = choose|k: int| 0 <= k < b1.len() && b1[k] == p;
                assert(b[k] == p && b[k] < b[b.len() - 1]);
                assert(b.contains(p));
                let l = choose|l: int| 0 <= l < a.len() && a[l] == p;
                assert(l < a.len() - 1);
                assert(a1[l] == p);
            }
        }
        assert(increasing(a1));
        assert(increasing(b1));
        lemma_increasing_unique(a1, b1);
        assert(a =~= a1.push(x));
        assert(b =~= b1.push(y));
    }
}

/// The keys of `m`, each once, smallest first.
pub fn key_list<V>(m: &BTreeMap<u64, V>) -> (r: Vec<u64>)
    ensures
        r@.no_duplicates(),
        forall|p: u64| r@.contains(p) <==> m@.contains_key(p),
        increasing(r@),
{
    broadcast use axiom_spec_keys_iter;
    broadcast use vstd::laws_cmp::group_laws_cmp;
    broadcast use vstd::std_specs::btree::axiom_increasing_seq_meaning;

    let mut out: Vec<u64> = Vec::new();
    let ghost all: Seq<&u64> = spec_keys_iter(m).remaining();
    proof {
        assert(vstd::std_specs::btree::increasing_seq(all));
        assert(vstd::laws_cmp::obeys_cmp::<&u64>());
        assert forall|i: int, j: int| 0 <= i < j < all.len() implies *all[i] < *all[j] by {
            assert(vstd::std_specs::cmp::OrdSpec::cmp_spec(&all[i], &all[j]) is Less);
        }
    }
    for k in it: m.keys()
        invariant
            it.seq() == all,
            out@.len() == it.index(),
            forall|j: int| 0 <= j < out@.len() ==> out@[j] == *all[j],
            forall|i: int, j: int| 0 <= i < j < all.len() ==> *all[i] < *all[j],
    {
        out.push(*k);
    }
    proof {
        assert(out@ =~= all.unref());
        assert forall|p: u64| out@.contains(p) <==> m@.contains_key(p) by {
            assert(out@.to_set().contains(p) == out@.contains(p));
        }
    }
    out
}


pub proof fn lemma_take_contains(s: Seq<u64>, i: int, q: u64)
    requires
        0 <= i < s.len(),
    ensures
        s.take(i + 1).contains(q) <==> (s.take(i).contains(q) || s[i] == q),
{
    let a = s.take(i);
    let b = s.take(i + 1);
    if a.contains(q) {
        let j = choose|j: int| 0 <= j < a.len() && a[j] == q;
        assert(b[j] == q);
    }
    if s[i] == q {
        assert(b[i] == q);
    }
    if b.contains(q) {
        let j = choose|j: int| 0 <= j < b.len() && b[j] == q;
        if j < i {
            assert(a[j] == q);
        }
    }
}

/// Gives every frame of `list` back to the allocator.
fn dealloc_all(allocator: &mut StackFrameAllocator, list: &Vec<u64>)
    requires
        old(allocator).wf(),
        list@.no_duplicates(),
        forall|p: u64| list@.contains(p) ==> #[trigger] old(allocator).is_allocated(p),
    ensures
        final(allocator).wf(),
        forall|p: u64| #[trigger]
            final(allocator).is_allocated(p) <==> (old(allocator).is_allocated(p)
                && !list@.contains(p)),
        final(allocator).free_count() == old(allocator).free_count() + list@.len(),
{
    let ghost a0 = *allocator;
    let mut i: usize = 0;
    while i < list.len()
        invariant
            i <= list@.len(),
            allocator.wf(),
            list@.no_duplicates(),
            forall|p: u64| list@.contains(p) ==> #[trigger] a0.is_allocated(p),
            forall|p: u64| #[trigger]
                allocator.is_allocated(p) <==> (a0.is_allocated(p) && !list@.take(i as int).contains(
                    p,
                )),
            allocator.free_count() == a0.free_count() + i,
        decreases list@.len() - i,
    {
        let ghost prev = *allocator;
        let p = list[i];
        proof {
            assert(list@[i as int] == p);
            assert(list@.contains(p));
            assert(a0.is_allocated(p));
            let a = list@.take(i as int);
            if a.contains(p) {
                let j = choose|j: int| 0 <= j < a.len() && a[j] == p;
                assert(list@[j] == p);
            }
            assert(allocator.is_allocated(p));
        }
        frame_dealloc(allocator, PhysPageNum(p));
        proof {
            assert forall|q: u64| #[trigger]
                allocator.is_allocated(q) <==> (a0.is_allocated(q) && !list@.take(
                    i as int + 1,
                ).contains(q)) by {
                assert(allocator.allocated().contains(q) == (prev.allocated().contains(q) && q != p));
                assert(allocator.allocated().contains(q) == allocator.is_allocated(q));
                assert(prev.allocated().contains(q) == prev.is_allocated(q));
                assert(prev.is_allocated(q) == (a0.is_allocated(q) && !list@.take(i as int).contains(q)));
                lemma_take_contains(list@, i as int, q);
            }
        }
        i += 1;
    }
    proof {
        assert(list@.take(list@.len() as int) =~= list@);
    }
}

impl PageTable {
    /// The valid leaf entry for `vpn`, if there is one.
    pub fn translate(&self, vpn: VirtPageNum) -> (r: Option<PageTableEntry>)
        requires
            self.inv(),
            vpn.wf(),
        ensures
            r == (if self@.contains_key(vpn.0) {
                Some(self@[vpn.0])
            } else {
                None::<PageTableEntry>
            }),
    {
        match self.find_pte(vpn) {
            Some((t, i)) => {
                let e = PageTableEntry { bits: self.read_entry(t, i) };
                if e.is_valid() {
                    Some(e)
                } else {
                    None
                }
            },
            None => None,
        }
    }

    /// The physical page that `vpn` is mapped to, if it is mapped.
    pub fn find_ppn(&self, vpn: VirtPageNum) -> (r: Option<PhysPageNum>)
        requires
            self.inv(),
            vpn.wf(),
        ensures
            r == (if self@.contains_key(vpn.0) {
                Some(self@[vpn.0].spec_ppn())
            } else {
                None::<PhysPageNum>
            }),
            r matches Some(p) ==> p.wf(),
    {
        match self.translate(vpn) {
            Some(e) => Some(e.ppn()),
            None => None,
        }
    }

    /// The physical address that `va` is mapped to: the mapped page with the
    /// offset of `va` in its page.
    pub fn translate_va(&self, va: VirtAddr) -> (r: Option<PhysAddr>)
        requires
            self.inv(),
            va.wf(),
        ensures
            r == (if self@.contains_key(va.0 / 4096) {
                Some(PhysAddr((self@[va.0 / 4096].spec_ppn().0 * 4096 + va.0 % 4096) as u64))
            } else {
                None::<PhysAddr>
            }),
    {
        match self.find_ppn(va.floor()) {
            Some(ppn) => Some(PhysAddr(ppn.addr().0 + va.page_offset())),
            None => None,
        }
    }

    /// Maps `args.vpn` to `args.ppn` with `args.flags` and the valid flag,
    /// creating the directories that the walk lacks, and takes ownership of
    /// `args.frame` if one is given. Fails exactly when the allocator cannot
    /// supply the missing directories.
    pub fn map(&mut self, allocator: &mut StackFrameAllocator, args: MapArgs) -> (r: Result<
        (),
        MemError,
    >)
        requires
            old(self).inv(),
            old(allocator).wf(),
            old(self).accounted(old(allocator)),
            args.vpn.wf(),
            args.ppn.wf(),
            args.flags.wf(),
            !old(self)@.contains_key(args.vpn.0),
            args.frame matches Some(f) ==> f.ppn == args.ppn && f.wf() && old(
                allocator,
            ).is_allocated(f.ppn.0) && !old(self).owned().contains(f.ppn.0),
        ensures
            final(allocator).wf(),
            r.is_ok() <==> old(allocator).free_count() >= old(self).missing_tables(args.vpn),
            r.is_ok() ==> {
                &&& final(self).inv()
                &&& final(self).accounted(final(allocator))
                &&& final(self).root() == old(self).root()
                &&& final(self)@ == old(self)@.insert(
                    args.vpn.0,
                    PageTableEntry { bits: pte_bits(args.ppn.0, args.flags.bits | FLAG_V) },
                )
                &&& final(self).frames() == (match args.frame {
                    Some(f) => old(self).frames().insert(f.ppn.0, f.bytes@),
                    None => old(self).frames(),
                })
                &&& final(self).lacks() == lacks_after(
                    old(self).lacks(),
                    args.vpn.0 as int,
                    args.vpn.0 + 1,
                )
                &&& old(self).table_frames().subset_of(final(self).table_frames())
                &&& final(allocator).free_count() == old(allocator).free_count() - old(
                    self,
                ).missing_tables(args.vpn)
                &&& forall|p: u64|
                    final(allocator).is_allocated(p) <==> (old(allocator).is_allocated(p) || (
                    final(self).table_frames().contains(p) && !old(self).table_frames().contains(
                        p,
                    )))
                &&& forall|p: u64|
                    final(self).table_frames().contains(p) && !old(self).table_frames().contains(p)
                        ==> !old(allocator).is_allocated(p)
            },
    {
        let MapArgs { vpn, ppn, flags, frame } = args;
        let ghost s0 = *self;
        let (t, i) = match self.find_pte_create(allocator, vpn) {
            Ok(slot) => slot,
            Err(e) => {
                return Err(e);
            },
        };
        let ghost s1 = *self;
        let entry = PageTableEntry::new(ppn, flags.union(PTEFlags { bits: FLAG_V }));
        proof {
            let f = flags.bits;
            assert((f | 1u16) & 1u16 == 1u16) by (bit_vector);
            lemma_pte_fields(ppn.0, f | FLAG_V);
            s1.lemma_walk(vpn);
        }
        self.write_entry(t, i, entry.bits);
        let ghost s2 = *self;
        match frame {
            Some(ft) => {
                proof {
                    assert(!s0.table_frames().contains(ft.ppn.0) && !s0.frames().dom().contains(
                        ft.ppn.0,
                    ));
                    assert(!s2.tables@.contains_key(ft.ppn.0));
                }
                self.frames.insert(ft.ppn.0, ft.bytes);
                proof {
                    assert forall|p: u64| #[trigger]
                        self.frames@.contains_key(p) implies self.frames@[p]@.len() == 4096
                        && !self.tables@.contains_key(p) && p < PPN_LIMIT by {
                        if p != ft.ppn.0 {
                            assert(s1.frames@.contains_key(p));
                        }
                    }
                    Self::lemma_set_leaf(&s1, self, vpn, t, entry.bits);
                    assert(self.frames() =~= s0.frames().insert(ft.ppn.0, ft.bytes@)) by {
                        assert(s1.frames() == s0.frames());
                        assert forall|p: u64| s1.frames().contains_key(p) implies s1.frames@.contains_key(p) by {}
                    }
                }
            },
            None => {
                proof {
                    Self::lemma_set_leaf(&s1, self, vpn, t, entry.bits);
                    assert(self.frames() =~= s0.frames());
                }
            },
        }
        proof {
            assert forall|p: u64| #[trigger] self.owned().contains(p) implies allocator.is_allocated(
                p,
            ) by {
                if s1.owned().contains(p) {
                } else {
                    assert(self.frames().contains_key(p));
                }
            }
            assert forall|v: int| 0 <= v < VPN_LIMIT implies #[trigger] self.lacks()[v]
                == lacks_after(s0.lacks(), vpn.0 as int, vpn.0 + 1)[v] by {
                let w = VirtPageNum(v as u64);
                assert(w.wf());
                assert(self.missing_tables(w) == s1.missing_tables(w));
            }
            assert(self.lacks() =~= lacks_after(s0.lacks(), vpn.0 as int, vpn.0 + 1));
        }
        Ok(())
    }

    /// Removes the mapping of `args.vpn`. With `args.dealloc`, the frame that
    /// the page was mapped to goes back to the allocator if this table owns
    /// it. A page that is not mapped is left alone, and must not be given
    /// together with `args.panic`.
    pub fn unmap(&mut self, allocator: &mut StackFrameAllocator, args: UnmapArgs)
        requires
            old(self).inv(),
            old(allocator).wf(),
            old(self).accounted(old(allocator)),
            args.vpn.wf(),
            args.panic ==> old(self)@.contains_key(args.vpn.0),
        ensures
            final(self).inv(),
            final(allocator).wf(),
            final(self).accounted(final(allocator)),
            final(self).root() == old(self).root(),
            final(self).table_frames() == old(self).table_frames(),
            forall|v: VirtPageNum| final(self).missing_tables(v) == old(self).missing_tables(v),
            final(self)@ == old(self)@.remove(args.vpn.0),
            ({
                let freed = args.dealloc && old(self)@.contains_key(args.vpn.0) && old(
                    self,
                ).frames().contains_key(old(self)@[args.vpn.0].spec_ppn().0);
                let ppn = old(self)@[args.vpn.0].spec_ppn().0;
                if freed {
                    &&& final(self).frames() == old(self).frames().remove(ppn)
                    &&& final(allocator).allocated() == old(allocator).allocated().remove(ppn)
                    &&& final(allocator).free_count() == old(allocator).free_count() + 1
                    &&& final(allocator).recycled() == old(allocator).recycled().push(ppn)
                    &&& final(allocator).start() == old(allocator).start()
                    &&& final(allocator).current() == old(allocator).current()
                    &&& final(allocator).end() == old(allocator).end()
                } else {
                    &&& final(self).frames() == old(self).frames()
                    &&& *final(allocator) == *old(allocator)
                }
            }),
    {
        let vpn = args.vpn;
        let ghost s0 = *self;
        let slot = self.find_pte(vpn);
        let (t, i) = match slot {
            Some(slot) => slot,
            None => {
                assert(self@ =~= s0@.remove(vpn.0));
                return ;
            },
        };
        let old_entry = PageTableEntry { bits: self.read_entry(t, i) };
        if !old_entry.is_valid() {
            assert(self@ =~= s0@.remove(vpn.0));
            return ;
        }
        assert(s0@.contains_key(vpn.0) && s0@[vpn.0] == old_entry);
        proof {
            lemma_pte_basics(0);
            s0.lemma_inv_facts();
        }
        self.write_entry(t, i, PageTableEntry::empty().bits);
        let ghost s1 = *self;
        proof {
            Self::lemma_set_leaf(&s0, &s1, vpn, t, 0);
            assert(s1.frames() =~= s0.frames());
        }
        if args.dealloc {
            let key = FrameTrackerMarker::new(old_entry.ppn());
            match self.frames.remove(&key.ppn.0) {
                Some(_bytes) => {
                    proof {
                        assert(s0.owned().contains(key.ppn.0));
                    }
                    frame_dealloc(allocator, key.ppn);
                    proof {
                        assert(self.frames() =~= s0.frames().remove(key.ppn.0));
                        Self::lemma_same_tables(&s1, self);
                        assert forall|p: u64| #[trigger]
                            self.owned().contains(p) implies allocator.is_allocated(p) by {
                            assert(s0.owned().contains(p));
                            assert(p != key.ppn.0);
                            assert(old(allocator).allocated().contains(p));
                            assert(allocator.allocated().contains(p));
                        }
                    }
                },
                None => {
                    proof {
                        assert(self.frames@ =~= s1.frames@);
                        assert(self.frames() =~= s0.frames());
                        Self::lemma_same_tables(&s1, self);
                        assert forall|p: u64| #[trigger]
                            self.owned().contains(p) implies allocator.is_allocated(p) by {
                            assert(s0.owned().contains(p));
                        }
                    }
                },
            }
        } else {
            proof {
                assert forall|p: u64| #[trigger] self.owned().contains(p) implies allocator.is_allocated(
                    p,
                ) by {
                    assert(s0.owned().contains(p));
                }
            }
        }
    }

    /// Two tables with the same directories have the same meaning, whatever leaf frames they own.
    proof fn lemma_same_tables(s0: &PageTable, s1: &PageTable)
        requires
            s0.inv(),
            s1.root_ppn == s0.root_ppn,
            s1.tables == s0.tables,
            s1.paths == s0.paths,
            forall|p: u64| #[trigger]
                s1.frames@.contains_key(p) ==> s1.frames@[p]@.len() == 4096
                    && !s1.tables@.contains_key(p) && p < PPN_LIMIT,
        ensures
            s1.inv(),
            s1@ == s0@,
            s1.table_frames() == s0.table_frames(),
            forall|v: VirtPageNum| s1.missing_tables(v) == s0.missing_tables(v),
    {
        assert forall|t: u64, i: int| s1.entry(t, i) == s0.entry(t, i) by {}
        assert forall|v: VirtPageNum|
            s1.leaf(v) == s0.leaf(v) && s1.l1_table(v) == s0.l1_table(v) && s1.l0_table(v)
                == s0.l0_table(v) by {}
        assert(s1@ =~= s0@);
    }

    /// Whether the table owns leaf frame `ppn`.
    pub fn owns_frame(&self, ppn: PhysPageNum) -> (r: bool)
        ensures
            r == self.frames().contains_key(ppn.0),
    {
        self.frames.contains_key(&ppn.0)
    }

    /// The bytes of owned leaf frame `ppn`.
    pub fn frame_bytes(&self, ppn: PhysPageNum) -> (r: Option<&Vec<u8>>)
        ensures
            match r {
                Some(bytes) => self.frames().contains_key(ppn.0) && bytes@ == self.frames()[ppn.0],
                None => !self.frames().contains_key(ppn.0),
            },
    {
        self.frames.get(&ppn.0)
    }

    /// Writes `data` into owned leaf frame `ppn`, from byte `offset` of the frame on.
    pub fn write_frame(&mut self, ppn: PhysPageNum, offset: usize, data: &[u8])
        requires
            old(self).inv(),
            old(self).frames().contains_key(ppn.0),
            offset + data@.len() <= 4096,
        ensures
            final(self).inv(),
            final(self).root() == old(self).root(),
            final(self)@ == old(self)@,
            final(self).table_frames() == old(self).table_frames(),
            forall|v: VirtPageNum| final(self).missing_tables(v) == old(self).missing_tables(v),
            final(self).frames() == old(self).frames().insert(
                ppn.0,
                splice(old(self).frames()[ppn.0], offset as int, data@),
            ),
    {
        let ghost s0 = *self;
        let mut bytes = self.frames.remove(&ppn.0).unwrap();
        let ghost before = bytes@;
        let mut i: usize = 0;
        while i < data.len()
            invariant
                i <= data@.len(),
                offset + data@.len() <= 4096,
                bytes@.len() == 4096,
                before.len() == 4096,
                forall|j: int|
                    0 <= j < 4096 ==> bytes@[j] == (if offset <= j < offset + i {
                        data@[j - offset]
                    } else {
                        before[j]
                    }),
            decreases data@.len() - i,
        {
            bytes[offset + i] = data[i];
            i += 1;
        }
        assert(bytes@ =~= splice(before, offset as int, data@));
        self.frames.insert(ppn.0, bytes);
        proof {
            assert forall|p: u64| #[trigger]
                self.frames@.contains_key(p) implies self.frames@[p]@.len() == 4096
                && !self.tables@.contains_key(p) && p < PPN_LIMIT by {
                assert(s0.frames@.contains_key(p));
            }
            Self::lemma_same_tables(&s0, self);
            assert(self.frames() =~= s0.frames().insert(
                ppn.0,
                splice(s0.frames()[ppn.0], offset as int, data@),
            ));
        }
    }

    /// Gives every frame the table owns back to the allocator and leaves
    /// the table without any frame.
    pub fn recycle(&mut self, allocator: &mut StackFrameAllocator)
        requires
            old(self).inv(),
            old(allocator).wf(),
            old(self).accounted(old(allocator)),
        ensures
            final(allocator).wf(),
            final(self).owned() == Set::<u64>::empty(),
            final(self).frames() == Map::<u64, Seq<u8>>::empty(),
            final(self).root() == old(self).root(),
            final(allocator).allocated() == old(allocator).allocated().difference(old(self).owned()),
            final(allocator).free_count() == old(allocator).free_count() + old(self).owned().len(),
    {
        proof {
            self.lemma_inv_facts();
        }
        let tables = key_list(&self.tables);
        let frames = key_list(&self.frames);
        let ghost s0 = *self;
        let ghost a0 = *allocator;
        let ghost ts = tables@.to_set();
        let ghost fs = frames@.to_set();
        proof {
            assert(ts =~= self.table_frames());
            assert(fs =~= self.frames().dom());
            tables@.unique_seq_to_set();
            frames@.unique_seq_to_set();
            vstd::set_lib::lemma_set_disjoint_lens(ts, fs);
            assert forall|p: u64| tables@.contains(p) implies allocator.is_allocated(p) by {
                assert(self.owned().contains(p));
            }
        }
        dealloc_all(allocator, &tables);
        proof {
            assert forall|p: u64| frames@.contains(p) implies allocator.is_allocated(p) by {
                assert(self.frames().dom().contains(p));
                assert(self.owned().contains(p));
                assert(!self.table_frames().contains(p));
            }
        }
        dealloc_all(allocator, &frames);
        self.tables.clear();
        self.frames.clear();
        proof {
            assert(allocator.allocated() =~= a0.allocated().difference(s0.owned()));
            assert(s0.owned() =~= ts.union(fs));
            assert(ts.union(fs).len() == ts.len() + fs.len());
            assert(self.owned() =~= Set::<u64>::empty());
            assert(self.frames() =~= Map::<u64, Seq<u8>>::empty());
        }
    }
}


/// The byte that a program of the address space of `pt` finds at virtual
/// address `va`: the address is taken modulo 2^39, its page must be mapped,
/// and to a frame that the table owns.
pub open spec fn mem_byte(pt: &PageTable, va: int) -> Option<u8> {
    let a = va % (VA_LIMIT as int);
    let v = (a / 4096) as u64;
    if pt@.contains_key(v) && pt.frames().contains_key(pt@[v].spec_ppn().0) {
        Some(pt.frames()[pt@[v].spec_ppn().0][a % 4096])
    } else {
        None
    }
}

/// Address at which part `k` of the buffer at `va` begins when the buffer
/// is cut at page boundaries.
pub open spec fn chunk_start(va: int, k: int) -> int {
    if k <= 0 {
        va
    } else {
        (va / 4096 + k) * 4096
    }
}

/// Address at which part `k` of the buffer of `len` bytes at `va` ends.
pub open spec fn chunk_end(va: int, len: int, k: int) -> int {
    if (va / 4096 + k + 1) * 4096 < va + len {
        (va / 4096 + k + 1) * 4096
    } else {
        va + len
    }
}

/// Number of parts that the buffer of `len` bytes at `va` is cut into.
pub open spec fn chunk_count(va: int, len: int) -> int {
    if len <= 0 {
        0
    } else {
        (va + len - 1) / 4096 - va / 4096 + 1
    }
}

impl PageTable {
    /// The byte at virtual address `va`, if a program of this address space can reach one there.
    pub fn read_byte(&self, va: u64) -> (r: Option<u8>)
        requires
            self.inv(),
        ensures
            r == mem_byte(self, va as int),
    {
        let a = VirtAddr::from(va);
        let ppn = match self.find_ppn(a.floor()) {
            Some(ppn) => ppn,
            None => {
                return None;
            },
        };
        proof {
            self.lemma_inv_facts();
        }
        match self.frame_bytes(ppn) {
            Some(bytes) => Some(bytes[a.page_offset() as usize]),
            None => None,
        }
    }

    /// Stores `b` at virtual address `va` if a program of this address space
    /// can reach a byte there; returns whether it did.
    pub fn write_byte(&mut self, va: u64, b: u8) -> (r: bool)
        requires
            old(self).inv(),
        ensures
            final(self).inv(),
            final(self).root() == old(self).root(),
            final(self)@ == old(self)@,
            final(self).table_frames() == old(self).table_frames(),
            final(self).frames().dom() == old(self).frames().dom(),
            forall|v: VirtPageNum| final(self).missing_tables(v) == old(self).missing_tables(v),
            r == mem_byte(old(self), va as int).is_some(),
            r ==> {
                let a = va % VA_LIMIT;
                let p = old(self)@[a / 4096].spec_ppn().0;
                final(self).frames() == old(self).frames().insert(
                    p,
                    old(self).frames()[p].update((a % 4096) as int, b),
                )
            },
            !r ==> final(self).frames() == old(self).frames(),
    {
        let a = VirtAddr::from(va);
        let ppn = match self.find_ppn(a.floor()) {
            Some(ppn) => ppn,
            None => {
                return false;
            },
        };
        if !self.owns_frame(ppn) {
            return false;
        }
        proof {
            self.lemma_inv_facts();
        }
        let one: [u8; 1] = [b];
        let ghost before = self.frames()[ppn.0];
        self.write_frame(ppn, a.page_offset() as usize, one.as_slice());
        proof {
            assert(splice(before, (a.0 % 4096) as int, one@) =~= before.update((a.0 % 4096) as int, b));
            assert(self.frames().dom() =~= old(self).frames().dom());
        }
        true
    }
}

proof fn lemma_chunk_step(va: int, total: int, k: int, cur: int, left: int)
    requires
        0 <= va,
        0 <= k,
        cur == chunk_start(va, k),
        cur + left == va + total,
        left > 0,
    ensures
        ({
            let room = 4096 - cur % 4096;
            let n = if left < room {
                left
            } else {
                room
            };
            &&& chunk_end(va, total, k) - chunk_start(va, k) == n
            &&& left > n ==> cur + n == chunk_start(va, k + 1) && k + 1 < chunk_count(va, total)
            &&& left == n ==> k + 1 == chunk_count(va, total)
            &&& k < chunk_count(va, total)
        }),
{
    if k > 0 {
        assert(cur % 4096 == 0);
        assert(cur / 4096 == va / 4096 + k);
    } else {
        assert(cur == va);
    }
}

proof fn lemma_same_page(cur: int, j: int)
    requires
        0 <= cur,
        0 <= j < 4096 - cur % 4096,
    ensures
        ((cur + j) % 0x80_0000_0000) / 4096 == (cur % 0x80_0000_0000) / 4096,
        ((cur + j) % 0x80_0000_0000) % 4096 == (cur % 0x80_0000_0000) % 4096 + j,
        (cur % 0x80_0000_0000) % 4096 == cur % 4096,
{
    let m = cur % 0x80_0000_0000;
    assert(m % 4096 == cur % 4096);
    assert(m + j < 0x80_0000_0000) by {
        assert(m / 4096 <= 0x7ff_ffff);
    }
    assert((cur + j) % 0x80_0000_0000 == m + j);
}

proof fn lemma_part_bytes(page_table: &PageTable, cur: int, bytes: Seq<u8>, part: Seq<u8>)
    requires
        0 <= cur,
        part.len() <= 4096 - cur % 4096,
        page_table@.contains_key(((cur % 0x80_0000_0000) / 4096) as u64),
        page_table.frames().contains_key(
            page_table@[((cur % 0x80_0000_0000) / 4096) as u64].spec_ppn().0,
        ),
        bytes == page_table.frames()[page_table@[((cur % 0x80_0000_0000) / 4096) as u64].spec_ppn().0],
        bytes.len() == 4096,
        part == bytes.subrange(cur % 4096, cur % 4096 + part.len()),
    ensures
        forall|j: int| 0 <= j < part.len() ==> mem_byte(page_table, cur + j) == Some(#[trigger] part[j]),
{
    assert forall|j: int| 0 <= j < part.len() implies mem_byte(page_table, cur + j) == Some(
        #[trigger] part[j],
    ) by {
        lemma_same_page(cur, j);
    }
}

/// The bytes of the buffer of `len` bytes at virtual address `va_ptr` of the
/// address space of `page_table`, one part for each page the buffer touches.
/// `None` when the buffer runs over the end of the address range or a
/// program of the address space cannot reach one of its bytes.
pub fn translated_byte_buffer(page_table: &PageTable, va_ptr: u64, len: usize) -> (r: Option<
    Vec<Vec<u8>>,
>)
    requires
        page_table.inv(),
    ensures
        r.is_some() <==> va_ptr + len <= u64::MAX && forall|i: int|
            0 <= i < len ==> (#[trigger] mem_byte(page_table, va_ptr + i)).is_some(),
        r matches Some(parts) ==> {
            &&& parts@.len() == chunk_count(va_ptr as int, len as int)
            &&& forall|k: int|
                0 <= k < parts@.len() ==> (#[trigger] parts@[k])@.len() == chunk_end(
                    va_ptr as int,
                    len as int,
                    k,
                ) - chunk_start(va_ptr as int, k)
            &&& forall|k: int, j: int|
                0 <= k < parts@.len() && 0 <= j < parts@[k]@.len() ==> mem_byte(
                    page_table,
                    chunk_start(va_ptr as int, k) + j,
                ) == Some(#[trigger] parts@[k]@[j])
        },
{
    if len as u64 > u64::MAX - va_ptr {
        return None;
    }
    let mut len_to_find: usize = len;
    let mut cur_va: u64 = va_ptr;
    let mut ret: Vec<Vec<u8>> = Vec::new();
    let ghost va = va_ptr as int;
    let ghost total = len as int;
    proof {
        page_table.lemma_inv_facts();
    }
    while len_to_find > 0
        invariant
            page_table.inv(),
            va == va_ptr,
            total == len,
            va + total <= u64::MAX,
            cur_va + len_to_find == va + total,
            len_to_find > 0 ==> cur_va == chunk_start(va, ret@.len() as int),
            len_to_find == 0 ==> ret@.len() == chunk_count(va, total),
            forall|i: int| 0 <= i < cur_va - va ==> (#[trigger] mem_byte(page_table, va + i)).is_some(),
            forall|k: int|
                0 <= k < ret@.len() ==> (#[trigger] ret@[k])@.len() == chunk_end(va, total, k)
                    - chunk_start(va, k),
            forall|k: int, j: int|
                0 <= k < ret@.len() && 0 <= j < ret@[k]@.len() ==> mem_byte(
                    page_table,
                    chunk_start(va, k) + j,
                ) == Some(#[trigger] ret@[k]@[j]),
        decreases len_to_find,
    {
        let a = VirtAddr::from(cur_va);
        let offset = a.page_offset();
        let room: u64 = PAGE_SIZE - offset;
        let cur_len: usize = if (len_to_find as u64) < room {
            len_to_find
        } else {
            room as usize
        };
        let ghost k = ret@.len() as int;
        let ghost done = ret@;
        proof {
            lemma_same_page(cur_va as int, 0);
            lemma_chunk_step(va, total, k, cur_va as int, len_to_find as int);
        }
        let bytes = match page_table.find_ppn(a.floor()) {
            Some(ppn) => match page_table.frame_bytes(ppn) {
                Some(bytes) => bytes,
                None => {
                    assert(mem_byte(page_table, va + (cur_va - va)).is_none());
                    return None;
                },
            },
            None => {
                assert(mem_byte(page_table, va + (cur_va - va)).is_none());
                return None;
            },
        };
        let part = vstd::slice::slice_to_vec(
            vstd::slice::slice_subrange(bytes.as_slice(), offset as usize, offset as usize + cur_len),
        );
        proof {
            lemma_part_bytes(page_table, cur_va as int, bytes@, part@);
            assert forall|i: int| 0 <= i < cur_va + cur_len - va implies (#[trigger] mem_byte(
                page_table,
                va + i,
            )).is_some() by {
                if i >= cur_va - va {
                    let j = i - (cur_va - va);
                    assert(mem_byte(page_table, cur_va + j) == Some(part@[j]));
                }
            }
        }
        ret.push(part);
        len_to_find -= cur_len;
        cur_va += cur_len as u64;
        proof {
            assert forall|x: int| 0 <= x < ret@.len() implies (#[trigger] ret@[x])@.len() == chunk_end(
                va,
                total,
                x,
            ) - chunk_start(va, x) by {
                if x < k {
                    assert(ret@[x] == done[x]);
                }
            }
            assert forall|x: int, j: int|
                0 <= x < ret@.len() && 0 <= j < ret@[x]@.len() implies mem_byte(
                page_table,
                chunk_start(va, x) + j,
            ) == Some(#[trigger] ret@[x]@[j]) by {
                if x < k {
                    assert(ret@[x] == done[x]);
                }
            }
        }
    }
    Some(ret)
}

/// Whether the `n` bytes from virtual address `va` on can be reached and
/// are not zero, while the byte after them cannot be reached or lies beyond
/// the end of the address range.
pub open spec fn unterminated(pt: &PageTable, va: int, n: int) -> bool {
    &&& 0 <= n
    &&& forall|i: int|
        0 <= i < n ==> (#[trigger] mem_byte(pt, va + i)).is_some() && mem_byte(pt, va + i) != Some(
            0u8,
        )
    &&& mem_byte(pt, va + n).is_none() || va + n > u64::MAX
}

/// Whether `s` is the string at virtual address `va`: its bytes stand
/// there, none of them zero, and a zero byte follows them, all within the
/// address range.
pub open spec fn terminated(pt: &PageTable, va: int, s: Seq<u8>) -> bool {
    &&& forall|i: int| 0 <= i < s.len() ==> mem_byte(pt, va + i) == Some(#[trigger] s[i]) && s[i] != 0
    &&& mem_byte(pt, va + s.len()) == Some(0u8)
    &&& va + s.len() <= u64::MAX
}

/// The string at virtual address `va` of the address space of `pt`, if
/// there is one.
pub open spec fn user_str(pt: &PageTable, va: int) -> Option<Seq<u8>> {
    if exists|s: Seq<u8>| terminated(pt, va, s) {
        Some(choose|s: Seq<u8>| terminated(pt, va, s))
    } else {
        None
    }
}

/// There is at most one string at an address.
pub proof fn lemma_terminated_unique(pt: &PageTable, va: int, s1: Seq<u8>, s2: Seq<u8>)
    requires
        terminated(pt, va, s1),
        terminated(pt, va, s2),
    ensures
        s1 == s2,
{
    if s1.len() < s2.len() {
        assert(mem_byte(pt, va + s1.len()) == Some(s2[s1.len() as int]));
    } else if s2.len() < s1.len() {
        assert(mem_byte(pt, va + s2.len()) == Some(s1[s2.len() as int]));
    } else {
        assert forall|i: int| 0 <= i < s1.len() implies s1[i] == s2[i] by {
            assert(mem_byte(pt, va + i) == Some(s1[i]));
            assert(mem_byte(pt, va + i) == Some(s2[i]));
        }
        assert(s1 =~= s2);
    }
}

/// Where the bytes run out before a zero byte, there is no string.
pub proof fn lemma_unterminated_no_str(pt: &PageTable, va: int, n: int)
    requires
        unterminated(pt, va, n),
    ensures
        user_str(pt, va).is_none(),
{
    if exists|s: Seq<u8>| terminated(pt, va, s) {
        let s = choose|s: Seq<u8>| terminated(pt, va, s);
        if s.len() < n {
            assert(mem_byte(pt, va + s.len()) != Some(0u8));
        } else if s.len() > n {
            assert(mem_byte(pt, va + n) == Some(s[n]));
        }
    }
}

/// The bytes from virtual address `va_ptr` of the address space of
/// `page_table` up to the first zero byte, without it. `None` when a program
/// of the address space cannot reach a byte before it meets a zero byte.
pub fn translate_str(page_table: &PageTable, va_ptr: u64) -> (r: Option<Vec<u8>>)
    requires
        page_table.inv(),
    ensures
        match r {
            Some(s) => user_str(page_table, va_ptr as int) == Some(s@),
            None => user_str(page_table, va_ptr as int).is_none(),
        },
{
    let mut ret: Vec<u8> = Vec::new();
    let mut va: u64 = va_ptr;
    loop
        invariant
            page_table.inv(),
            va == va_ptr + ret@.len(),
            forall|i: int|
                0 <= i < ret@.len() ==> mem_byte(page_table, va_ptr + i) == Some(#[trigger] ret@[i])
                    && ret@[i] != 0,
        decreases u64::MAX - va,
    {
        let ch = match page_table.read_byte(va) {
            Some(ch) => ch,
            None => {
                proof {
                    let n = ret@.len() as int;
                    assert forall|i: int| 0 <= i < n implies (#[trigger] mem_byte(
                        page_table,
                        va_ptr + i,
                    )).is_some() && mem_byte(page_table, va_ptr + i) != Some(0u8) by {
                        assert(mem_byte(page_table, va_ptr + i) == Some(ret@[i]));
                    }
                    assert(mem_byte(page_table, va_ptr + n).is_none());
                    lemma_unterminated_no_str(page_table, va_ptr as int, n);
                }
                return None;
            },
        };
        if ch == 0 {
            proof {
                assert(terminated(page_table, va_ptr as int, ret@));
                let s = choose|s: Seq<u8>| terminated(page_table, va_ptr as int, s);
                lemma_terminated_unique(page_table, va_ptr as int, s, ret@);
            }
            return Some(ret);
        }
        if va == u64::MAX {
            proof {
                let n = ret@.len() as int + 1;
                assert forall|i: int| 0 <= i < n implies (#[trigger] mem_byte(
                    page_table,
                    va_ptr + i,
                )).is_some() && mem_byte(page_table, va_ptr + i) != Some(0u8) by {
                    if i < n - 1 {
                        assert(mem_byte(page_table, va_ptr + i) == Some(ret@[i]));
                    }
                }
                assert(va_ptr + n > u64::MAX);
                lemma_unterminated_no_str(page_table, va_ptr as int, n);
            }
            return None;
        }
        ret.push(ch);
        va += 1;
    }
}


/// Mapping a page and looking it up gives the entry that was written, and
/// after unmapping it again the page is not found; a page that was not
/// mapped before leaves the table with the meaning it had.
pub proof fn lemma_map_translate_unmap(
    before: Map<u64, PageTableEntry>,
    vpn: u64,
    ppn: u64,
    flags: u16,
)
    requires
        ppn < PPN_LIMIT,
        flags <= FLAG_ALL,
    ensures
        ({
            let entry = PageTableEntry { bits: pte_bits(ppn, flags | FLAG_V) };
            let mapped = before.insert(vpn, entry);
            let unmapped = mapped.remove(vpn);
            &&& mapped.contains_key(vpn)
            &&& mapped[vpn].spec_ppn().0 == ppn
            &&& mapped[vpn].spec_flags().bits == flags | FLAG_V
            &&& mapped[vpn].spec_is_valid()
            &&& !unmapped.contains_key(vpn)
            &&& !before.contains_key(vpn) ==> unmapped == before
        }),
{
    assert(flags <= 511 ==> (flags | 1u16) <= 511 && (flags | 1u16) & 1u16 == 1u16) by (bit_vector);
    lemma_pte_fields(ppn, flags | FLAG_V);
    let entry = PageTableEntry { bits: pte_bits(ppn, flags | FLAG_V) };
    if !before.contains_key(vpn) {
        assert(before.insert(vpn, entry).remove(vpn) =~= before);
    }
}

} // verus!
