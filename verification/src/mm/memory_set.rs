//! Address spaces: a page table together with the areas mapped in it.
//!
//! An area is a range of virtual pages mapped in one way, either each page to
//! the physical page of the same number or each page to a frame of its own,
//! and with one set of permissions.

use vstd::prelude::*;
use std::collections::BTreeMap;
use vstd::std_specs::btree::*;
use crate::config::{PPN_LIMIT, TRAMPOLINE, VPN_LIMIT};
use crate::mm::address::{PhysAddr, PhysPageNum, VPNRange, VirtAddr, VirtPageNum};
use crate::mm::demand::{
    bare_lacks, frames_needed, lacks_after, lemma_frames_needed_grow, lemma_lacks_after_joined,
    lemma_lacks_after_none,
};
use crate::mm::flags::{MapPermission, PTEFlags, FLAG_ALL, FLAG_R, FLAG_V, FLAG_X};
use crate::mm::frame_allocator::{frame_alloc, zero_page, FrameTracker, StackFrameAllocator};
use crate::mm::page_table::{
    increasing, key_list, lemma_increasing_unique, lemma_pte_basics, lemma_pte_fields, mem_byte, pte_bits, pte_flags, pte_ppn, splice,
    MapArgs, MemError, PageTable, PageTableEntry, UnmapArgs,
};

verus! {

/// How the pages of an area are backed.
#[derive(Copy, Clone, PartialEq, Eq, Debug, Structural)]
pub enum MapType {
    /// Each page is mapped to the physical page of the same number.
    Identical,
    /// Each page is mapped to a frame allocated for it.
    Framed,
}

/// The frames that `allocator` has handed out to others than `pt`.
pub open spec fn foreign(pt: &PageTable, allocator: &StackFrameAllocator) -> Set<u64> {
    allocator.allocated().difference(pt.owned())
}

/// The leaf entry that maps a page to frame `ppn` with permissions `perm`.
pub open spec fn entry_for(ppn: u64, perm: MapPermission) -> PageTableEntry {
    PageTableEntry { bits: pte_bits(ppn, perm.bits | FLAG_V) }
}

/// Whether page `v` is mapped in `pt` as an area of kind `map_type` with
/// permissions `perm` maps it.
pub open spec fn maps_page(pt: &PageTable, map_type: MapType, perm: MapPermission, v: u64) -> bool {
    &&& pt@.contains_key(v)
    &&& pt@[v] == entry_for(pt@[v].spec_ppn().0, perm)
    &&& match map_type {
        MapType::Identical => pt@[v].spec_ppn().0 == v,
        MapType::Framed => pt.frames().contains_key(pt@[v].spec_ppn().0),
    }
}

/// The frames that the pages `[s, e)` are mapped to in `pt`.
pub open spec fn frame_image(pt: &PageTable, s: int, e: int) -> Set<u64> {
    Set::new(
        |p: u64|
            exists|v: u64| s <= v < e && pt@.contains_key(v) && (#[trigger] pt@[v]).spec_ppn().0 == p,
    )
}

/// Whether no two pages of `[s, e)` are mapped to the same frame in `pt`.
pub open spec fn frames_distinct(pt: &PageTable, s: int, e: int) -> bool {
    forall|v1: u64, v2: u64|
        s <= v1 < e && s <= v2 < e && v1 != v2 ==> (#[trigger] pt@[v1]).spec_ppn() != (
        #[trigger] pt@[v2]).spec_ppn()
}

/// Whether `pt1` is `pt0` with the pages `[s, e)` mapped in addition, each
/// framed page to a zeroed frame of its own that `pt0` did not own.
pub open spec fn mapped_range(
    pt0: &PageTable,
    pt1: &PageTable,
    map_type: MapType,
    perm: MapPermission,
    s: int,
    e: int,
) -> bool {
    &&& forall|v: u64| s <= v < e ==> #[trigger] maps_page(pt1, map_type, perm, v)
    &&& forall|v: u64|
        !(s <= v < e) ==> (#[trigger] pt1@.contains_key(v)) == pt0@.contains_key(v)
    &&& forall|v: u64| !(s <= v < e) && pt0@.contains_key(v) ==> #[trigger] pt1@[v] == pt0@[v]
    &&& forall|p: u64| #[trigger]
        pt0.frames().contains_key(p) ==> pt1.frames().contains_key(p) && pt1.frames()[p]
            == pt0.frames()[p]
    &&& match map_type {
        MapType::Identical => pt1.frames() == pt0.frames(),
        MapType::Framed => {
            &&& forall|v: u64|
                s <= v < e ==> !pt0.frames().contains_key((#[trigger] pt1@[v]).spec_ppn().0)
                    && pt1.frames()[pt1@[v].spec_ppn().0] == zero_page()
            &&& frames_distinct(pt1, s, e)
            &&& pt1.frames().dom() == pt0.frames().dom().union(frame_image(pt1, s, e))
        },
    }
}

/// Whether `pt1` is `pt0` without the mappings of the pages `[s, e)` and,
/// for framed pages, without the frames they were mapped to.
pub open spec fn unmapped_range(
    pt0: &PageTable,
    pt1: &PageTable,
    map_type: MapType,
    s: int,
    e: int,
) -> bool {
    &&& forall|v: u64| s <= v < e ==> !(#[trigger] pt1@.contains_key(v))
    &&& forall|v: u64|
        !(s <= v < e) ==> (#[trigger] pt1@.contains_key(v)) == pt0@.contains_key(v)
    &&& forall|v: u64| !(s <= v < e) && pt0@.contains_key(v) ==> #[trigger] pt1@[v] == pt0@[v]
    &&& forall|p: u64| #[trigger]
        pt1.frames().contains_key(p) ==> pt0.frames().contains_key(p) && pt1.frames()[p]
            == pt0.frames()[p]
    &&& match map_type {
        MapType::Identical => pt1.frames() == pt0.frames(),
        MapType::Framed => pt1.frames().dom() == pt0.frames().dom().difference(
            frame_image(pt0, s, e),
        ),
    }
}

/// A range of virtual pages mapped in one way and with one set of permissions.
#[derive(Clone, Copy, Debug)]
pub struct MapArea {
    pub vpn_range: VPNRange,
    pub map_type: MapType,
    pub map_perm: MapPermission,
}

impl MapArea {
    pub open spec fn range(&self) -> VPNRange {
        self.vpn_range
    }

    pub open spec fn map_type(&self) -> MapType {
        self.map_type
    }

    pub open spec fn perm(&self) -> MapPermission {
        self.map_perm
    }

    /// The area with its end moved to page `end`.
    pub open spec fn with_end(&self, end: u64) -> MapArea {
        MapArea {
            vpn_range: VPNRange { l: self.vpn_range.l, r: VirtPageNum(end) },
            map_type: self.map_type,
            map_perm: self.map_perm,
        }
    }

    /// First page of the area.
    pub open spec fn start(&self) -> int {
        self.range().start()
    }

    /// One past the last page of the area.
    pub open spec fn end(&self) -> int {
        self.range().end()
    }

    /// Whether page `v` belongs to the area.
    pub open spec fn contains(&self, v: u64) -> bool {
        self.start() <= v < self.end()
    }

    /// Whether the area lies in the virtual address space and has known permissions only.
    pub open spec fn wf(&self) -> bool {
        &&& self.start() <= self.end() <= VPN_LIMIT
        &&& self.perm().wf()
    }

    /// The area of the pages that hold any byte of `[start_va, end_va)`.
    pub fn new(start_va: VirtAddr, end_va: VirtAddr, map_type: MapType, map_perm: MapPermission) -> (r:
        Self)
        requires
            start_va.0 / 4096 <= (end_va.0 + 4095) / 4096,
        ensures
            r.start() == start_va.0 / 4096,
            r.end() == (end_va.0 + 4095) / 4096,
            r.map_type() == map_type,
            r.perm() == map_perm,
            start_va.wf() && end_va.wf() && map_perm.wf() ==> r.wf(),
    {
        let start = start_va.floor();
        let end = end_va.ceil();
        MapArea { vpn_range: VPNRange::new(start, end), map_type, map_perm }
    }

    /// A copy of `another`.
    pub fn from_another(another: &MapArea) -> (r: Self)
        ensures
            r == *another,
    {
        MapArea {
            vpn_range: another.vpn_range,
            map_type: another.map_type,
            map_perm: another.map_perm,
        }
    }

    pub fn get_start(&self) -> (r: VirtPageNum)
        ensures
            r.0 == self.start(),
    {
        self.vpn_range.get_start()
    }

    pub fn get_end(&self) -> (r: VirtPageNum)
        ensures
            r.0 == self.end(),
    {
        self.vpn_range.get_end()
    }

    pub fn get_type(&self) -> (r: MapType)
        ensures
            r == self.map_type(),
    {
        self.map_type
    }

    pub fn get_perm(&self) -> (r: MapPermission)
        ensures
            r == self.perm(),
    {
        self.map_perm
    }

    /// Maps page `vpn` as this area maps its pages: to the page of the same
    /// number, or to a fresh zeroed frame that the page table then owns.
    /// Fails exactly when the allocator cannot supply that frame and the
    /// directories that the walk to `vpn` lacks.
    pub fn map_one(
        &self,
        page_table: &mut PageTable,
        allocator: &mut StackFrameAllocator,
        vpn: VirtPageNum,
    ) -> (r: Result<(), MemError>)
        requires
            old(page_table).inv(),
            old(allocator).wf(),
            old(page_table).accounted(old(allocator)),
            vpn.wf(),
            self.perm().wf(),
            !old(page_table)@.contains_key(vpn.0),
        ensures
            final(allocator).wf(),
            r.is_ok() <==> old(allocator).free_count() >= old(page_table).missing_tables(vpn) + (
            if self.map_type() == MapType::Framed {
                1nat
            } else {
                0nat
            }),
            r.is_ok() ==> {
                &&& final(page_table).inv()
                &&& final(page_table).accounted(final(allocator))
                &&& final(page_table).root() == old(page_table).root()
                &&& foreign(final(page_table), final(allocator)) == foreign(
                    old(page_table),
                    old(allocator),
                )
                &&& final(page_table)@ == old(page_table)@.insert(
                    vpn.0,
                    final(page_table)@[vpn.0],
                )
                &&& maps_page(final(page_table), self.map_type(), self.perm(), vpn.0)
                &&& final(allocator).free_count() == old(allocator).free_count() - old(
                    page_table,
                ).missing_tables(vpn) - (if self.map_type() == MapType::Framed {
                    1nat
                } else {
                    0nat
                })
                &&& final(page_table).lacks() == lacks_after(
                    old(page_table).lacks(),
                    vpn.0 as int,
                    vpn.0 + 1,
                )
                &&& match self.map_type() {
                    MapType::Identical => final(page_table).frames() == old(page_table).frames(),
                    MapType::Framed => {
                        let p = final(page_table)@[vpn.0].spec_ppn().0;
                        &&& !old(page_table).frames().contains_key(p)
                        &&& final(page_table).frames() == old(page_table).frames().insert(
                            p,
                            zero_page(),
                        )
                    },
                }
            },
    {
        let ghost pt0 = *page_table;
        let ghost a0 = *allocator;
        proof {
            pt0.lemma_inv_facts();
        }
        let (ppn, frame_tracker) = match self.map_type {
            MapType::Identical => (PhysPageNum(vpn.0), None),
            MapType::Framed => {
                let frame = match frame_alloc(allocator) {
                    Some(frame) => frame,
                    None => {
                        return Err(MemError::OutOfFrames);
                    },
                };
                let ppn = frame.ppn;
                (ppn, Some(frame))
            },
        };
        let ghost a1 = *allocator;
        proof {
            if self.map_type == MapType::Framed {
                assert(!pt0.owned().contains(ppn.0));
                assert(allocator.allocated().contains(ppn.0));
                assert forall|p: u64| #[trigger] pt0.owned().contains(p) implies allocator.is_allocated(
                    p,
                ) by {
                    assert(a0.is_allocated(p));
                    assert(a0.allocated().contains(p));
                    assert(allocator.allocated().contains(p));
                }
            }
        }
        let pte_flags = PTEFlags::from_bits(self.map_perm.bits).unwrap();
        let args = MapArgs::builder(vpn, ppn).with_flags(pte_flags).with_frame(frame_tracker);
        match page_table.map(allocator, args) {
            Ok(()) => {},
            Err(e) => {
                return Err(e);
            },
        }
        proof {
            let f = self.map_perm.bits;
            assert(f <= 511 ==> (f | 1u16) <= 511) by (bit_vector);
            lemma_pte_fields(ppn.0, self.map_perm.bits | FLAG_V);
            assert(page_table@[vpn.0] == entry_for(ppn.0, self.map_perm));
            assert(foreign(page_table, allocator) =~= foreign(&pt0, &a0)) by {
                assert forall|q: u64|
                    foreign(page_table, allocator).contains(q) == foreign(&pt0, &a0).contains(
                        q,
                    ) by {
                    assert(allocator.allocated().contains(q) == allocator.is_allocated(q));
                    assert(a1.allocated().contains(q) == a1.is_allocated(q));
                    assert(a0.allocated().contains(q) == a0.is_allocated(q));
                    if pt0.owned().contains(q) {
                        assert(a0.is_allocated(q));
                    }
                    if page_table.owned().contains(q) {
                        assert(allocator.is_allocated(q));
                    }
                }
            }
        }
        Ok(())
    }

    /// Removes the mapping of page `vpn`, which must be mapped, and gives
    /// the frame of a framed page back to the allocator.
    pub fn unmap_one(
        &self,
        page_table: &mut PageTable,
        allocator: &mut StackFrameAllocator,
        vpn: VirtPageNum,
    )
        requires
            old(page_table).inv(),
            old(allocator).wf(),
            old(page_table).accounted(old(allocator)),
            vpn.wf(),
            maps_page(old(page_table), self.map_type(), self.perm(), vpn.0),
        ensures
            final(page_table).inv(),
            final(allocator).wf(),
            final(page_table).accounted(final(allocator)),
            final(page_table).root() == old(page_table).root(),
            final(page_table).table_frames() == old(page_table).table_frames(),
            final(page_table).lacks() == old(page_table).lacks(),
            foreign(final(page_table), final(allocator)) == foreign(old(page_table), old(allocator)),
            final(page_table)@ == old(page_table)@.remove(vpn.0),
            match self.map_type() {
                MapType::Identical => {
                    &&& final(page_table).frames() == old(page_table).frames()
                    &&& final(allocator).free_count() == old(allocator).free_count()
                },
                MapType::Framed => {
                    &&& final(page_table).frames() == old(page_table).frames().remove(
                        old(page_table)@[vpn.0].spec_ppn().0,
                    )
                    &&& final(allocator).free_count() == old(allocator).free_count() + 1
                },
            },
    {
        let ghost pt0 = *page_table;
        let ghost a0 = *allocator;
        let free = match self.map_type {
            MapType::Identical => false,
            MapType::Framed => true,
        };
        page_table.unmap(allocator, UnmapArgs::builder(vpn).with_dealloc(free).with_panic(true));
        proof {
            pt0.lemma_inv_facts();
            assert(foreign(page_table, allocator) =~= foreign(&pt0, &a0)) by {
                assert forall|q: u64|
                    foreign(page_table, allocator).contains(q) == foreign(&pt0, &a0).contains(
                        q,
                    ) by {
                    if pt0.owned().contains(q) {
                        assert(a0.is_allocated(q));
                    }
                    if page_table.owned().contains(q) {
                        assert(allocator.is_allocated(q));
                    }
                }
            }
        }
    }
}


impl MapArea {
    /// Maps the pages `[s, e)` one after the other as this area maps its pages.
    fn map_range(
        &self,
        page_table: &mut PageTable,
        allocator: &mut StackFrameAllocator,
        s: u64,
        e: u64,
    ) -> (r: Result<(), MemError>)
        requires
            old(page_table).inv(),
            old(allocator).wf(),
            old(page_table).accounted(old(allocator)),
            self.perm().wf(),
            e <= VPN_LIMIT,
            forall|v: u64| s <= v < e ==> !(#[trigger] old(page_table)@.contains_key(v)),
        ensures
            final(allocator).wf(),
            r.is_ok() <==> old(allocator).free_count() >= frames_needed(
                old(page_table).lacks(),
                self.map_type() == MapType::Framed,
                s as int,
                e as int,
            ),
            r.is_ok() ==> {
                &&& final(allocator).free_count() == old(allocator).free_count() - frames_needed(
                    old(page_table).lacks(),
                    self.map_type() == MapType::Framed,
                    s as int,
                    e as int,
                )
                &&& final(page_table).lacks() == lacks_after(
                    old(page_table).lacks(),
                    s as int,
                    e as int,
                )
                &&& final(page_table).inv()
                &&& final(page_table).accounted(final(allocator))
                &&& final(page_table).root() == old(page_table).root()
                &&& foreign(final(page_table), final(allocator)) == foreign(
                    old(page_table),
                    old(allocator),
                )
                &&& mapped_range(
                    old(page_table),
                    final(page_table),
                    self.map_type(),
                    self.perm(),
                    s as int,
                    e as int,
                )
            },
    {
        let ghost pt0 = *page_table;
        let ghost a0 = *allocator;
        let ghost framed = self.map_type() == MapType::Framed;
        let mut cur: u64 = s;
        proof {
            lemma_lacks_after_none(pt0.lacks(), s as int, s as int);
            assert(frame_image(page_table, s as int, cur as int) =~= Set::<u64>::empty());
            assert(page_table.frames().dom() =~= pt0.frames().dom().union(
                frame_image(page_table, s as int, cur as int),
            ));
        }
        while cur < e
            invariant
                s <= cur,
                cur <= e || cur == s,
                e <= VPN_LIMIT,
                a0 == *old(allocator),
                self.perm().wf(),
                page_table.inv(),
                allocator.wf(),
                page_table.accounted(allocator),
                page_table.root() == pt0.root(),
                foreign(page_table, allocator) == foreign(&pt0, &a0),
                forall|v: u64| cur <= v < e ==> !(#[trigger] page_table@.contains_key(v)),
                mapped_range(&pt0, page_table, self.map_type(), self.perm(), s as int, cur as int),
                pt0 == *old(page_table),
                framed == (self.map_type() == MapType::Framed),
                page_table.lacks() == lacks_after(pt0.lacks(), s as int, cur as int),
                allocator.free_count() + frames_needed(pt0.lacks(), framed, s as int, cur as int)
                    == a0.free_count(),
            decreases e - cur,
        {
            let ghost pt1 = *page_table;
            proof {
                assert(pt1.lacks()[cur as int] == pt1.missing_tables(VirtPageNum(cur)));
                assert(pt0.lacks().contains_key(cur as int));
                lemma_frames_needed_grow(pt0.lacks(), framed, s as int, cur + 1, e as int);
            }
            match self.map_one(page_table, allocator, VirtPageNum(cur)) {
                Ok(()) => {},
                Err(err) => {
                    return Err(err);
                },
            }
            proof {
                lemma_lacks_after_joined(pt0.lacks(), s as int, cur as int, cur + 1);
                let ty = self.map_type();
                let perm = self.perm();
                let np = page_table@[cur].spec_ppn().0;
                pt1.lemma_inv_facts();
                assert forall|v: u64| s <= v < cur + 1 implies maps_page(page_table, ty, perm, v) by {
                    if v != cur {
                        assert(maps_page(&pt1, ty, perm, v));
                        assert(page_table@[v] == pt1@[v]);
                    }
                }
                assert forall|v: u64| !(s <= v < cur + 1) implies (#[trigger] page_table@.contains_key(
                    v,
                )) == pt0@.contains_key(v) by {
                    assert(pt1@.contains_key(v) == pt0@.contains_key(v));
                }
                assert forall|v: u64|
                    !(s <= v < cur + 1) && pt0@.contains_key(v) implies #[trigger] page_table@[v]
                    == pt0@[v] by {
                    assert(pt1@.contains_key(v));
                    assert(pt1@[v] == pt0@[v]);
                }
                assert forall|p: u64| #[trigger]
                    pt0.frames().contains_key(p) implies page_table.frames().contains_key(p)
                    && page_table.frames()[p] == pt0.frames()[p] by {
                    assert(pt1.frames().contains_key(p));
                }
                if ty == MapType::Framed {
                    assert forall|v: u64| s <= v < cur + 1 implies !pt0.frames().contains_key(
                        (#[trigger] page_table@[v]).spec_ppn().0,
                    ) && page_table.frames()[page_table@[v].spec_ppn().0] == zero_page() by {
                        if v != cur {
                            assert(page_table@[v] == pt1@[v]);
                            assert(maps_page(&pt1, ty, perm, v));
                        } else {
                            if pt0.frames().contains_key(np) {
                                assert(pt1.frames().contains_key(np));
                            }
                        }
                    }
                    assert forall|v1: u64, v2: u64|
                        s <= v1 < cur + 1 && s <= v2 < cur + 1 && v1 != v2 implies (
                    #[trigger] page_table@[v1]).spec_ppn() != (#[trigger] page_table@[v2]).spec_ppn() by {
                        if v1 != cur {
                            assert(page_table@[v1] == pt1@[v1]);
                            assert(maps_page(&pt1, ty, perm, v1));
                        }
                        if v2 != cur {
                            assert(page_table@[v2] == pt1@[v2]);
                            assert(maps_page(&pt1, ty, perm, v2));
                        }
                    }
                    assert(frame_image(page_table, s as int, cur + 1) =~= frame_image(
                        &pt1,
                        s as int,
                        cur as int,
                    ).insert(np)) by {
                        assert forall|p: u64|
                            frame_image(page_table, s as int, cur + 1).contains(p) implies frame_image(
                            &pt1,
                            s as int,
                            cur as int,
                        ).insert(np).contains(p) by {
                            let v = choose|v: u64|
                                s <= v < cur + 1 && page_table@.contains_key(v) && (
                                #[trigger] page_table@[v]).spec_ppn().0 == p;
                            if v != cur {
                                assert(pt1@.contains_key(v) && pt1@[v].spec_ppn().0 == p);
                            }
                        }
                        assert forall|p: u64|
                            frame_image(&pt1, s as int, cur as int).insert(np).contains(
                                p,
                            ) implies frame_image(page_table, s as int, cur + 1).contains(p) by {
                            if p == np {
                                assert(page_table@.contains_key(cur) && page_table@[cur].spec_ppn().0
                                    == p);
                            } else {
                                let v = choose|v: u64|
                                    s <= v < cur && pt1@.contains_key(v) && (
                                    #[trigger] pt1@[v]).spec_ppn().0 == p;
                                assert(page_table@.contains_key(v) && page_table@[v].spec_ppn().0
                                    == p);
                            }
                        }
                    }
                    assert(page_table.frames().dom() =~= pt0.frames().dom().union(
                        frame_image(page_table, s as int, cur + 1),
                    ));
                }
            }
            cur += 1;
        }
        proof {
            assert(frame_image(page_table, s as int, e as int) =~= frame_image(
                page_table,
                s as int,
                cur as int,
            ));
        }
        Ok(())
    }

    /// Unmaps the pages `[s, e)` one after the other.
    fn unmap_range(
        &self,
        page_table: &mut PageTable,
        allocator: &mut StackFrameAllocator,
        s: u64,
        e: u64,
    )
        requires
            old(page_table).inv(),
            old(allocator).wf(),
            old(page_table).accounted(old(allocator)),
            e <= VPN_LIMIT,
            forall|v: u64|
                s <= v < e ==> #[trigger] maps_page(old(page_table), self.map_type(), self.perm(), v),
            self.map_type() == MapType::Framed ==> frames_distinct(old(page_table), s as int, e as int),
        ensures
            final(page_table).inv(),
            final(allocator).wf(),
            final(page_table).accounted(final(allocator)),
            final(page_table).root() == old(page_table).root(),
            final(page_table).table_frames() == old(page_table).table_frames(),
            final(page_table).lacks() == old(page_table).lacks(),
            foreign(final(page_table), final(allocator)) == foreign(old(page_table), old(allocator)),
            unmapped_range(old(page_table), final(page_table), self.map_type(), s as int, e as int),
            final(allocator).free_count() == old(allocator).free_count() + (if self.map_type()
                == MapType::Framed && s <= e {
                (e - s) as nat
            } else {
                0nat
            }),
    {
        let ghost pt0 = *page_table;
        let ghost a0 = *allocator;
        let ghost ty = self.map_type();
        let ghost perm = self.perm();
        let mut cur: u64 = s;
        proof {
            assert(frame_image(&pt0, s as int, cur as int) =~= Set::<u64>::empty());
            assert(page_table.frames().dom() =~= pt0.frames().dom().difference(
                frame_image(&pt0, s as int, cur as int),
            ));
        }
        while cur < e
            invariant
                s <= cur,
                cur <= e || cur == s,
                e <= VPN_LIMIT,
                ty == self.map_type(),
                perm == self.perm(),
                page_table.inv(),
                allocator.wf(),
                page_table.accounted(allocator),
                page_table.root() == pt0.root(),
                page_table.table_frames() == pt0.table_frames(),
                page_table.lacks() == pt0.lacks(),
                foreign(page_table, allocator) == foreign(&pt0, &a0),
                forall|v: u64| s <= v < e ==> #[trigger] maps_page(&pt0, ty, perm, v),
                ty == MapType::Framed ==> frames_distinct(&pt0, s as int, e as int),
                forall|v: u64| cur <= v < e ==> #[trigger] maps_page(page_table, ty, perm, v),
                forall|v: u64| cur <= v < e ==> page_table@[v] == #[trigger] pt0@[v],
                unmapped_range(&pt0, page_table, ty, s as int, cur as int),
                allocator.free_count() == a0.free_count() + (if ty == MapType::Framed {
                    (cur - s) as nat
                } else {
                    0nat
                }),
            decreases e - cur,
        {
            let ghost pt1 = *page_table;
            let ghost gone = page_table@[cur].spec_ppn().0;
            self.unmap_one(page_table, allocator, VirtPageNum(cur));
            proof {
                assert(pt1@[cur] == pt0@[cur]);
                assert forall|v: u64| cur + 1 <= v < e implies maps_page(page_table, ty, perm, v) by {
                    assert(maps_page(&pt1, ty, perm, v));
                    assert(page_table@[v] == pt1@[v]);
                    if ty == MapType::Framed {
                        assert(pt1@[v] == pt0@[v]);
                        assert(pt0@[v].spec_ppn() != pt0@[cur].spec_ppn());
                    }
                }
                assert forall|v: u64| cur + 1 <= v < e implies #[trigger] page_table@[v] == pt0@[v] by {
                    assert(pt1@[v] == pt0@[v]);
                }
                assert forall|v: u64| !(s <= v < cur + 1) implies (#[trigger] page_table@.contains_key(
                    v,
                )) == pt0@.contains_key(v) by {
                    assert(pt1@.contains_key(v) == pt0@.contains_key(v));
                }
                assert forall|v: u64|
                    !(s <= v < cur + 1) && pt0@.contains_key(v) implies #[trigger] page_table@[v]
                    == pt0@[v] by {
                    assert(pt1@.contains_key(v));
                    assert(pt1@[v] == pt0@[v]);
                }
                assert forall|p: u64| #[trigger]
                    page_table.frames().contains_key(p) implies pt0.frames().contains_key(p)
                    && page_table.frames()[p] == pt0.frames()[p] by {
                    assert(pt1.frames().contains_key(p));
                }
                if ty == MapType::Framed {
                    assert(frame_image(&pt0, s as int, cur + 1) =~= frame_image(
                        &pt0,
                        s as int,
                        cur as int,
                    ).insert(gone)) by {
                        assert forall|p: u64|
                            frame_image(&pt0, s as int, cur + 1).contains(p) implies frame_image(
                            &pt0,
                            s as int,
                            cur as int,
                        ).insert(gone).contains(p) by {
                            let v = choose|v: u64|
                                s <= v < cur + 1 && pt0@.contains_key(v) && (
                                #[trigger] pt0@[v]).spec_ppn().0 == p;
                            if v != cur {
                                assert(pt0@.contains_key(v) && pt0@[v].spec_ppn().0 == p);
                            }
                        }
                        assert forall|p: u64|
                            frame_image(&pt0, s as int, cur as int).insert(gone).contains(
                                p,
                            ) implies frame_image(&pt0, s as int, cur + 1).contains(p) by {
                            if p == gone {
                                assert(maps_page(&pt0, ty, perm, cur));
                                assert(pt0@.contains_key(cur) && pt0@[cur].spec_ppn().0 == p);
                            } else {
                                let v = choose|v: u64|
                                    s <= v < cur && pt0@.contains_key(v) && (
                                    #[trigger] pt0@[v]).spec_ppn().0 == p;
                                assert(pt0@.contains_key(v) && pt0@[v].spec_ppn().0 == p);
                            }
                        }
                    }
                    assert(page_table.frames().dom() =~= pt0.frames().dom().difference(
                        frame_image(&pt0, s as int, cur + 1),
                    ));
                }
            }
            cur += 1;
        }
        proof {
            assert(frame_image(&pt0, s as int, e as int) =~= frame_image(&pt0, s as int, cur as int));
        }
    }

    /// The frames that mapping the area takes where the walks lack `lacks`.
    pub open spec fn demand(&self, lacks: Map<int, nat>) -> nat {
        frames_needed(lacks, self.map_type() == MapType::Framed, self.start(), self.end())
    }

    /// What the walks lack once the area is mapped, if they lacked `lacks` before.
    pub open spec fn lacks_after(&self, lacks: Map<int, nat>) -> Map<int, nat> {
        lacks_after(lacks, self.start(), self.end())
    }

    /// The frames that mapping the pages from the end of the area to
    /// `new_end` takes where the walks lack `lacks`.
    pub open spec fn growth_demand(&self, lacks: Map<int, nat>, new_end: int) -> nat {
        frames_needed(lacks, self.map_type() == MapType::Framed, self.end(), new_end)
    }

    /// Maps every page of the area in `page_table`.
    pub fn map(&self, page_table: &mut PageTable, allocator: &mut StackFrameAllocator) -> (r:
        Result<(), MemError>)
        requires
            old(page_table).inv(),
            old(allocator).wf(),
            old(page_table).accounted(old(allocator)),
            self.wf(),
            forall|v: u64| self.contains(v) ==> !(#[trigger] old(page_table)@.contains_key(v)),
        ensures
            final(allocator).wf(),
            r.is_ok() <==> old(allocator).free_count() >= self.demand(old(page_table).lacks()),
            r.is_ok() ==> {
                &&& final(allocator).free_count() == old(allocator).free_count() - self.demand(
                    old(page_table).lacks(),
                )
                &&& final(page_table).lacks() == self.lacks_after(old(page_table).lacks())
                &&& final(page_table).inv()
                &&& final(page_table).accounted(final(allocator))
                &&& final(page_table).root() == old(page_table).root()
                &&& foreign(final(page_table), final(allocator)) == foreign(
                    old(page_table),
                    old(allocator),
                )
                &&& mapped_range(
                    old(page_table),
                    final(page_table),
                    self.map_type(),
                    self.perm(),
                    self.start(),
                    self.end(),
                )
            },
    {
        self.map_range(
            page_table,
            allocator,
            self.vpn_range.get_start().0,
            self.vpn_range.get_end().0,
        )
    }

    /// Unmaps every page of the area from `page_table`.
    pub fn unmap(&self, page_table: &mut PageTable, allocator: &mut StackFrameAllocator)
        requires
            old(page_table).inv(),
            old(allocator).wf(),
            old(page_table).accounted(old(allocator)),
            self.wf(),
            forall|v: u64|
                self.contains(v) ==> #[trigger] maps_page(
                    old(page_table),
                    self.map_type(),
                    self.perm(),
                    v,
                ),
            self.map_type() == MapType::Framed ==> frames_distinct(
                old(page_table),
                self.start(),
                self.end(),
            ),
        ensures
            final(page_table).inv(),
            final(allocator).wf(),
            final(page_table).accounted(final(allocator)),
            final(page_table).root() == old(page_table).root(),
            final(page_table).table_frames() == old(page_table).table_frames(),
            final(page_table).lacks() == old(page_table).lacks(),
            foreign(final(page_table), final(allocator)) == foreign(old(page_table), old(allocator)),
            unmapped_range(
                old(page_table),
                final(page_table),
                self.map_type(),
                self.start(),
                self.end(),
            ),
            final(allocator).free_count() == old(allocator).free_count() + (if self.map_type()
                == MapType::Framed {
                self.range().len()
            } else {
                0nat
            }),
    {
        self.unmap_range(
            page_table,
            allocator,
            self.vpn_range.get_start().0,
            self.vpn_range.get_end().0,
        );
    }

    /// Unmaps the pages from `new_end` to the end of the area and makes `new_end` its end.
    pub fn shrink_to(
        &mut self,
        page_table: &mut PageTable,
        allocator: &mut StackFrameAllocator,
        new_end: VirtPageNum,
    )
        requires
            old(page_table).inv(),
            old(allocator).wf(),
            old(page_table).accounted(old(allocator)),
            old(self).wf(),
            old(self).start() <= new_end.0 <= old(self).end(),
            forall|v: u64|
                old(self).contains(v) ==> #[trigger] maps_page(
                    old(page_table),
                    old(self).map_type(),
                    old(self).perm(),
                    v,
                ),
            old(self).map_type() == MapType::Framed ==> frames_distinct(
                old(page_table),
                old(self).start(),
                old(self).end(),
            ),
        ensures
            *final(self) == old(self).with_end(new_end.0),
            final(page_table).inv(),
            final(allocator).wf(),
            final(page_table).accounted(final(allocator)),
            final(page_table).root() == old(page_table).root(),
            final(page_table).table_frames() == old(page_table).table_frames(),
            final(page_table).lacks() == old(page_table).lacks(),
            foreign(final(page_table), final(allocator)) == foreign(old(page_table), old(allocator)),
            unmapped_range(
                old(page_table),
                final(page_table),
                old(self).map_type(),
                new_end.0 as int,
                old(self).end(),
            ),
            final(allocator).free_count() == old(allocator).free_count() + (if old(self).map_type()
                == MapType::Framed {
                (old(self).end() - new_end.0) as nat
            } else {
                0nat
            }),
    {
        let end = self.vpn_range.get_end().0;
        self.unmap_range(page_table, allocator, new_end.0, end);
        self.vpn_range = VPNRange::new(self.vpn_range.get_start(), new_end);
    }

    /// Maps the pages from the end of the area to `new_end` and makes `new_end` its end.
    pub fn append_to(
        &mut self,
        page_table: &mut PageTable,
        allocator: &mut StackFrameAllocator,
        new_end: VirtPageNum,
    ) -> (r: Result<(), MemError>)
        requires
            old(page_table).inv(),
            old(allocator).wf(),
            old(page_table).accounted(old(allocator)),
            old(self).wf(),
            old(self).end() <= new_end.0 <= VPN_LIMIT,
            forall|v: u64|
                old(self).end() <= v < new_end.0 ==> !(#[trigger] old(page_table)@.contains_key(v)),
        ensures
            final(allocator).wf(),
            r.is_ok() <==> old(allocator).free_count() >= old(self).growth_demand(
                old(page_table).lacks(),
                new_end.0 as int,
            ),
            r.is_err() ==> *final(self) == *old(self),
            r.is_ok() ==> {
                &&& final(allocator).free_count() == old(allocator).free_count() - old(
                    self,
                ).growth_demand(old(page_table).lacks(), new_end.0 as int)
                &&& final(page_table).lacks() == lacks_after(
                    old(page_table).lacks(),
                    old(self).end(),
                    new_end.0 as int,
                )
                &&& *final(self) == old(self).with_end(new_end.0)
                &&& final(page_table).inv()
                &&& final(page_table).accounted(final(allocator))
                &&& final(page_table).root() == old(page_table).root()
                &&& foreign(final(page_table), final(allocator)) == foreign(
                    old(page_table),
                    old(allocator),
                )
                &&& mapped_range(
                    old(page_table),
                    final(page_table),
                    old(self).map_type(),
                    old(self).perm(),
                    old(self).end(),
                    new_end.0 as int,
                )
            },
    {
        let end = self.vpn_range.get_end().0;
        match self.map_range(page_table, allocator, end, new_end.0) {
            Ok(()) => {},
            Err(e) => {
                return Err(e);
            },
        }
        self.vpn_range = VPNRange::new(self.vpn_range.get_start(), new_end);
        Ok(())
    }
}


/// The part of `data` that belongs into page `k` of an area: bytes
/// `[4096 k, 4096 (k + 1))`, as far as `data` reaches.
pub open spec fn page_chunk(data: Seq<u8>, k: int) -> Seq<u8> {
    let lo = if k * 4096 <= data.len() {
        k * 4096
    } else {
        data.len() as int
    };
    let hi = if (k + 1) * 4096 <= data.len() {
        (k + 1) * 4096
    } else {
        data.len() as int
    };
    data.subrange(lo, hi)
}

impl MapArea {
    /// Copies `data` into the frames of the area, 4096 bytes to each page
    /// from the first page on, until `data` or the area ends.
    pub fn copy_data(&self, page_table: &mut PageTable, data: &[u8])
        requires
            old(page_table).inv(),
            self.wf(),
            self.map_type() == MapType::Framed,
            forall|v: u64|
                self.contains(v) ==> #[trigger] maps_page(
                    old(page_table),
                    self.map_type(),
                    self.perm(),
                    v,
                ),
            frames_distinct(old(page_table), self.start(), self.end()),
        ensures
            final(page_table).inv(),
            final(page_table).root() == old(page_table).root(),
            final(page_table)@ == old(page_table)@,
            final(page_table).table_frames() == old(page_table).table_frames(),
            final(page_table).frames().dom() == old(page_table).frames().dom(),
            final(page_table).lacks() == old(page_table).lacks(),
            forall|v: u64|
                self.contains(v) ==> final(page_table).frames()[(#[trigger] old(
                    page_table,
                )@[v]).spec_ppn().0] == splice(
                    old(page_table).frames()[old(page_table)@[v].spec_ppn().0],
                    0,
                    page_chunk(data@, v - self.start()),
                ),
            forall|p: u64|
                old(page_table).frames().contains_key(p) && !frame_image(
                    old(page_table),
                    self.start(),
                    self.end(),
                ).contains(p) ==> #[trigger] final(page_table).frames()[p] == old(
                    page_table,
                ).frames()[p],
    {
        let ghost pt0 = *page_table;
        let first = self.vpn_range.get_start().0;
        let end = self.vpn_range.get_end().0;
        let mut cur: u64 = first;
        let mut start: usize = 0;
        let mut len: usize = data.len();
        proof {
            pt0.lemma_inv_facts();
        }
        while cur < end
            invariant
                first == self.start(),
                end == self.end(),
                end <= VPN_LIMIT,
                first <= cur,
                cur <= end || cur == first,
                start + len == data@.len(),
                data@.len() <= usize::MAX,
                start == (if (cur - first) * 4096 <= data@.len() {
                    (cur - first) * 4096
                } else {
                    data@.len() as int
                }),
                page_table.inv(),
                page_table.root() == pt0.root(),
                page_table@ == pt0@,
                page_table.table_frames() == pt0.table_frames(),
                page_table.frames().dom() == pt0.frames().dom(),
                page_table.lacks() == pt0.lacks(),
                forall|v: u64|
                    self.contains(v) ==> #[trigger] maps_page(&pt0, self.map_type(), self.perm(), v),
                self.map_type() == MapType::Framed,
                frames_distinct(&pt0, self.start(), self.end()),
                forall|v: u64|
                    first <= v < cur ==> page_table.frames()[(#[trigger] pt0@[v]).spec_ppn().0]
                        == splice(
                        pt0.frames()[pt0@[v].spec_ppn().0],
                        0,
                        page_chunk(data@, v - first),
                    ),
                forall|p: u64|
                    pt0.frames().contains_key(p) && !frame_image(&pt0, first as int, cur as int).contains(
                        p,
                    ) ==> #[trigger] page_table.frames()[p] == pt0.frames()[p],
            decreases end - cur,
        {
            let ghost pt1 = *page_table;
            let n: usize = if len < 4096 {
                len
            } else {
                4096
            };
            assert(maps_page(&pt0, self.map_type(), self.perm(), cur));
            let ppn = page_table.find_ppn(VirtPageNum(cur)).unwrap();
            let chunk = vstd::slice::slice_subrange(data, start, start + n);
            proof {
                assert(chunk@ =~= page_chunk(data@, cur - first));
                assert(!frame_image(&pt0, first as int, cur as int).contains(ppn.0)) by {
                    if frame_image(&pt0, first as int, cur as int).contains(ppn.0) {
                        let v = choose|v: u64|
                            first <= v < cur && pt0@.contains_key(v) && (#[trigger] pt0@[v]).spec_ppn().0
                                == ppn.0;
                        assert(pt0@[v].spec_ppn() != pt0@[cur].spec_ppn());
                    }
                }
            }
            page_table.write_frame(ppn, 0, chunk);
            proof {
                assert(page_table.frames().dom() =~= pt0.frames().dom());
                assert forall|v: u64| first <= v < cur + 1 implies page_table.frames()[(
                #[trigger] pt0@[v]).spec_ppn().0] == splice(
                    pt0.frames()[pt0@[v].spec_ppn().0],
                    0,
                    page_chunk(data@, v - first),
                ) by {
                    if v != cur {
                        assert(pt0@[v].spec_ppn() != pt0@[cur].spec_ppn());
                    }
                }
                assert forall|p: u64|
                    pt0.frames().contains_key(p) && !frame_image(&pt0, first as int, cur + 1).contains(
                        p,
                    ) implies #[trigger] page_table.frames()[p] == pt0.frames()[p] by {
                    if frame_image(&pt0, first as int, cur as int).contains(p) {
                        let v = choose|v: u64|
                            first <= v < cur && pt0@.contains_key(v) && (#[trigger] pt0@[v]).spec_ppn().0
                                == p;
                        assert(first <= v < cur + 1 && pt0@.contains_key(v) && pt0@[v].spec_ppn().0
                            == p);
                    }
                    if p == ppn.0 {
                        assert(first <= cur < cur + 1 && pt0@.contains_key(cur) && pt0@[cur].spec_ppn().0
                            == p);
                    }
                }
            }
            start += n;
            len -= n;
            cur += 1;
        }
        proof {
            assert(frame_image(&pt0, first as int, cur as int) =~= frame_image(
                &pt0,
                first as int,
                end as int,
            ));
        }
    }
}


/// Number of the trampoline page: the highest virtual page.
pub open spec fn trampoline_vpn() -> u64 {
    0x7ff_ffff
}

/// Number of the trap-context page: the page below the trampoline.
pub open spec fn trap_context_vpn() -> u64 {
    0x7ff_fffe
}

/// The bytes a framed page starts with: zeroes, with the page's part of the
/// area's initial data over them.
pub open spec fn initial_bytes(data: Option<Seq<u8>>, k: int) -> Seq<u8> {
    match data {
        Some(d) => splice(zero_page(), 0, page_chunk(d, k)),
        None => zero_page(),
    }
}

/// One address space: a page table and the areas mapped in it, by first page.
pub struct MemorySet {
    page_table: PageTable,
    areas: BTreeMap<u64, MapArea>,
}

impl View for MemorySet {
    type V = Map<u64, PageTableEntry>;

    /// The valid leaf entry of every mapped virtual page.
    closed spec fn view(&self) -> Map<u64, PageTableEntry> {
        self.page_table@
    }
}

impl MemorySet {
    /// The page table of the address space.
    pub closed spec fn table(&self) -> &PageTable {
        &self.page_table
    }

    /// For each page, how many directory pages the walk to it lacks.
    pub open spec fn lacks(&self) -> Map<int, nat> {
        self.table().lacks()
    }

    /// The areas of the address space, by the number of their first page.
    pub closed spec fn areas(&self) -> Map<u64, MapArea> {
        self.areas@
    }

    /// The bytes of each frame that backs a framed page, by page number.
    pub open spec fn frames(&self) -> Map<u64, Seq<u8>> {
        self.table().frames()
    }

    /// Page numbers of all frames the address space owns.
    pub open spec fn owned(&self) -> Set<u64> {
        self.table().owned()
    }

    /// Whether all owned frames are handed out by `allocator`.
    pub open spec fn accounted(&self, allocator: &StackFrameAllocator) -> bool {
        self.table().accounted(allocator)
    }

    /// Whether some area contains page `v`.
    pub open spec fn covered(&self, v: u64) -> bool {
        exists|k: u64| self.areas().contains_key(k) && #[trigger] self.areas()[k].contains(v)
    }

    /// The bytes of the frame that backs mapped page `v`.
    pub open spec fn page_bytes(&self, v: u64) -> Seq<u8> {
        self.frames()[self@[v].spec_ppn().0]
    }

    /// Whether the trampoline page is mapped.
    pub open spec fn has_trampoline(&self) -> bool {
        self@.contains_key(trampoline_vpn())
    }

    /// The page table is well formed; every area is keyed by its first page
    /// and keeps off the trampoline page; no page lies in two areas; every
    /// page of an area is mapped as the area says; nothing else is mapped
    /// but the trampoline; and no frame backs two framed pages.
    pub open spec fn inv(&self) -> bool {
        &&& self.table()@ == self@
        &&& self.table().inv()
        &&& forall|k: u64| #[trigger]
            self.areas().contains_key(k) ==> self.areas()[k].start() == k && self.areas()[k].wf()
                && !self.areas()[k].contains(trampoline_vpn())
        &&& forall|k1: u64, k2: u64, v: u64|
            self.areas().contains_key(k1) && self.areas().contains_key(k2) && k1 != k2 ==> !(
            #[trigger] self.areas()[k1].contains(v) && #[trigger] self.areas()[k2].contains(v))
        &&& forall|k: u64, v: u64|
            self.areas().contains_key(k) && #[trigger] self.areas()[k].contains(v) ==> maps_page(
                self.table(),
                self.areas()[k].map_type(),
                self.areas()[k].perm(),
                v,
            )
        &&& forall|v: u64| #[trigger]
            self@.contains_key(v) ==> v == trampoline_vpn() || self.covered(v)
        &&& forall|k1: u64, k2: u64, v1: u64, v2: u64|
            self.areas().contains_key(k1) && self.areas().contains_key(k2) && self.areas()[k1].map_type()
                == MapType::Framed && self.areas()[k2].map_type() == MapType::Framed
                && #[trigger] self.areas()[k1].contains(v1) && #[trigger] self.areas()[k2].contains(
                v2,
            ) && v1 != v2 ==> self@[v1].spec_ppn() != self@[v2].spec_ppn()
    }

    /// Whether `new` is `old` with `area` added: the pages of `area` are
    /// mapped in addition, framed ones to frames of their own that start
    /// with `data`, and everything else is as before.
    pub open spec fn pushed(old: &MemorySet, new: &MemorySet, area: MapArea, data: Option<Seq<u8>>) -> bool {
        &&& new.areas() == old.areas().insert(area.start() as u64, area)
        &&& forall|v: u64|
            !area.contains(v) ==> (#[trigger] new@.contains_key(v)) == old@.contains_key(v)
        &&& forall|v: u64| !area.contains(v) && old@.contains_key(v) ==> #[trigger] new@[v] == old@[v]
        &&& forall|p: u64| #[trigger]
            old.frames().contains_key(p) ==> new.frames().contains_key(p) && new.frames()[p]
                == old.frames()[p]
        &&& match area.map_type() {
            MapType::Identical => new.frames() == old.frames(),
            MapType::Framed => {
                &&& forall|v: u64|
                    area.contains(v) ==> !old.frames().contains_key((#[trigger] new@[v]).spec_ppn().0)
                        && new.page_bytes(v) == initial_bytes(data, v - area.start())
                &&& new.frames().dom() == old.frames().dom().union(
                    frame_image(new.table(), area.start(), area.end()),
                )
            },
        }
    }

    /// An address space with nothing mapped; fails exactly when no frame is left for the root directory.
    pub fn new_bare(allocator: &mut StackFrameAllocator) -> (r: Result<Self, MemError>)
        requires
            old(allocator).wf(),
        ensures
            final(allocator).wf(),
            r.is_ok() <==> old(allocator).free_count() > 0,
            match r {
                Ok(ms) => {
                    &&& ms.inv()
                    &&& ms.accounted(final(allocator))
                    &&& ms@ == Map::<u64, PageTableEntry>::empty()
                    &&& ms.areas() == Map::<u64, MapArea>::empty()
                    &&& ms.frames() == Map::<u64, Seq<u8>>::empty()
                    &&& foreign(ms.table(), final(allocator)) == old(allocator).allocated()
                    &&& final(allocator).free_count() == old(allocator).free_count() - 1
                    &&& ms.lacks() == bare_lacks()
                },
                Err(_) => final(allocator).allocated() == old(allocator).allocated(),
            },
    {
        let page_table = match PageTable::new(allocator) {
            Ok(pt) => pt,
            Err(e) => {
                return Err(e);
            },
        };
        let ms = MemorySet { page_table, areas: BTreeMap::new() };
        proof {
            ms.page_table.lemma_inv_facts();
            assert(ms.owned() =~= set![ms.page_table.root()]);
            assert(ms.lacks() =~= bare_lacks());
            assert(foreign(ms.table(), allocator) =~= old(allocator).allocated());
            assert(ms.accounted(allocator)) by {
                assert forall|p: u64| #[trigger] ms.owned().contains(p) implies allocator.is_allocated(
                    p,
                ) by {
                    assert(allocator.allocated().contains(p));
                }
            }
        }
        Ok(ms)
    }

    /// The value of the `satp` register that selects this address space.
    pub fn token(&self) -> (r: u64)
        requires
            self.inv(),
        ensures
            r == 0x8000_0000_0000_0000 + self.table().root(),
    {
        self.page_table.token()
    }

    /// The valid leaf entry for `vpn`, if the page is mapped.
    pub fn translate(&self, vpn: VirtPageNum) -> (r: Option<PageTableEntry>)
        requires
            self.inv(),
            vpn.wf(),
        ensures
            r == (if self@.contains_key(vpn.0) {
                Some(self@[vpn.0])
            } else {
                None::<PageTableEntry>
            }),
    {
        self.page_table.translate(vpn)
    }

    /// The page table of the address space.
    pub fn page_table(&self) -> (r: &PageTable)
        ensures
            r == self.table(),
    {
        &self.page_table
    }

    /// The area that starts at page `start`, if there is one.
    pub fn area(&self, start: VirtPageNum) -> (r: Option<MapArea>)
        ensures
            r == (if self.areas().contains_key(start.0) {
                Some(self.areas()[start.0])
            } else {
                None::<MapArea>
            }),
    {
        match self.areas.get(&start.0) {
            Some(a) => Some(*a),
            None => None,
        }
    }

    /// Maps the trampoline page, readable and executable, to the page that
    /// holds physical address `strampoline`. Fails exactly when the
    /// allocator cannot supply the directories the walk lacks.
    pub fn map_trampoline(&mut self, allocator: &mut StackFrameAllocator, strampoline: u64) -> (r:
        Result<(), MemError>)
        requires
            old(self).inv(),
            old(allocator).wf(),
            old(self).accounted(old(allocator)),
            !old(self).has_trampoline(),
        ensures
            final(allocator).wf(),
            r.is_ok() <==> old(allocator).free_count() >= old(self).table().missing_tables(
                VirtPageNum(trampoline_vpn()),
            ),
            r.is_ok() ==> {
                &&& final(self).inv()
                &&& final(self).accounted(final(allocator))
                &&& final(self).table().root() == old(self).table().root()
                &&& foreign(final(self).table(), final(allocator)) == foreign(
                    old(self).table(),
                    old(allocator),
                )
                &&& final(self).areas() == old(self).areas()
                &&& final(self).frames() == old(self).frames()
                &&& final(self)@ == old(self)@.insert(
                    trampoline_vpn(),
                    PageTableEntry {
                        bits: pte_bits(((strampoline % 0x100_0000_0000_0000) / 4096) as u64, 11),
                    },
                )
                &&& final(allocator).free_count() == old(allocator).free_count() - old(
                    self,
                ).table().missing_tables(VirtPageNum(trampoline_vpn()))
                &&& final(self).lacks() == lacks_after(
                    old(self).lacks(),
                    trampoline_vpn() as int,
                    trampoline_vpn() + 1,
                )
            },
    {
        let ghost s0 = *self;
        let ghost a0 = *allocator;
        let vpn = VirtAddr::from(TRAMPOLINE).floor();
        let ppn = PhysAddr::from(strampoline).floor();
        let flags = PTEFlags { bits: FLAG_R }.union(PTEFlags { bits: FLAG_X });
        assert(vpn.0 == trampoline_vpn());
        assert(2u16 | 8u16 == 10u16) by (bit_vector);
        assert(10u16 | 1u16 == 11u16) by (bit_vector);
        match self.page_table.map(allocator, MapArgs::builder(vpn, ppn).with_flags(flags)) {
            Ok(()) => {},
            Err(e) => {
                return Err(e);
            },
        }
        proof {
            s0.page_table.lemma_inv_facts();
            assert(foreign(self.table(), allocator) =~= foreign(s0.table(), &a0)) by {
                assert forall|q: u64|
                    foreign(self.table(), allocator).contains(q) == foreign(s0.table(), &a0).contains(
                        q,
                    ) by {
                    if s0.owned().contains(q) {
                        assert(a0.is_allocated(q));
                    }
                    if self.owned().contains(q) {
                        assert(allocator.is_allocated(q));
                    }
                }
            }
            assert forall|k: u64, v: u64|
                self.areas().contains_key(k) && #[trigger] self.areas()[k].contains(v) implies maps_page(
                self.table(),
                self.areas()[k].map_type(),
                self.areas()[k].perm(),
                v,
            ) by {
                assert(maps_page(s0.table(), s0.areas()[k].map_type(), s0.areas()[k].perm(), v));
            }
            assert forall|v: u64| #[trigger] self@.contains_key(v) implies v == trampoline_vpn()
                || self.covered(v) by {
                if v != trampoline_vpn() {
                    assert(s0@.contains_key(v));
                    assert(s0.covered(v));
                    let k = choose|k: u64|
                        s0.areas().contains_key(k) && #[trigger] s0.areas()[k].contains(v);
                    assert(self.areas().contains_key(k) && self.areas()[k].contains(v));
                }
            }
        }
        Ok(())
    }
}


impl MemorySet {
    /// Adds `area` to the address space: maps its pages and, for a framed
    /// area with `data`, copies `data` into its frames. The pages of the
    /// area must not be mapped yet, and an area already registered under the
    /// same first page must be empty.
    pub fn push(
        &mut self,
        allocator: &mut StackFrameAllocator,
        area: MapArea,
        data: Option<&[u8]>,
    ) -> (r: Result<(), MemError>)
        requires
            old(self).inv(),
            old(allocator).wf(),
            old(self).accounted(old(allocator)),
            area.wf(),
            !area.contains(trampoline_vpn()),
            forall|v: u64| area.contains(v) ==> !(#[trigger] old(self)@.contains_key(v)),
            old(self).areas().contains_key(area.start() as u64) ==> old(self).areas()[area.start() as u64].range().len()
                == 0,
            data.is_some() ==> area.map_type() == MapType::Framed,
        ensures
            final(allocator).wf(),
            r.is_ok() <==> old(allocator).free_count() >= area.demand(old(self).lacks()),
            r.is_ok() ==> {
                &&& final(allocator).free_count() == old(allocator).free_count() - area.demand(
                    old(self).lacks(),
                )
                &&& final(self).lacks() == area.lacks_after(old(self).lacks())
                &&& final(self).inv()
                &&& final(self).accounted(final(allocator))
                &&& final(self).table().root() == old(self).table().root()
                &&& foreign(final(self).table(), final(allocator)) == foreign(
                    old(self).table(),
                    old(allocator),
                )
                &&& Self::pushed(
                    old(self),
                    final(self),
                    area,
                    match data {
                        Some(d) => Some(d@),
                        None => None,
                    },
                )
            },
    {
        let ghost s0 = *self;
        let ghost a0 = *allocator;
        let ghost gdata: Option<Seq<u8>> = match data {
            Some(d) => Some(d@),
            None => None,
        };
        match area.map(&mut self.page_table, allocator) {
            Ok(()) => {},
            Err(e) => {
                return Err(e);
            },
        }
        let ghost s1 = *self;
        proof {
            s0.page_table.lemma_inv_facts();
            s1.page_table.lemma_inv_facts();
            assert forall|v: u64| area.contains(v) implies #[trigger] maps_page(
                &s1.page_table,
                area.map_type(),
                area.perm(),
                v,
            ) by {}
        }
        if let Some(d) = data {
            area.copy_data(&mut self.page_table, d);
        }
        let start = area.get_start().0;
        self.areas.insert(start, area);
        proof {
            let ty = area.map_type();
            let perm = area.perm();
            self.page_table.lemma_inv_facts();
            assert(self.owned() =~= s1.owned());
            assert(foreign(self.table(), allocator) =~= foreign(s0.table(), &a0));
            assert forall|p: u64| #[trigger] self.owned().contains(p) implies allocator.is_allocated(
                p,
            ) by {
                assert(s1.owned().contains(p));
            }
            // The pages of the new area are mapped as it says.
            assert forall|v: u64| area.contains(v) implies maps_page(self.table(), ty, perm, v) by {
                assert(maps_page(&s1.page_table, ty, perm, v));
            }
            // A page of an older area is not a page of the new one.
            assert forall|k: u64, v: u64|
                s0.areas().contains_key(k) && #[trigger] s0.areas()[k].contains(
                    v,
                ) implies !area.contains(v) by {
                assert(maps_page(s0.table(), s0.areas()[k].map_type(), s0.areas()[k].perm(), v));
                assert(s0@.contains_key(v));
            }
            assert forall|k: u64| #[trigger] self.areas().contains_key(k) implies self.areas()[k].start()
                == k && self.areas()[k].wf() && !self.areas()[k].contains(trampoline_vpn()) by {
                if k != start {
                    assert(s0.areas().contains_key(k));
                }
            }
            assert forall|k1: u64, k2: u64, v: u64|
                self.areas().contains_key(k1) && self.areas().contains_key(k2) && k1 != k2 implies !(
            #[trigger] self.areas()[k1].contains(v) && #[trigger] self.areas()[k2].contains(v)) by {
                if k1 != start && k2 != start {
                    assert(s0.areas().contains_key(k1) && s0.areas().contains_key(k2));
                } else if k1 == start {
                    if self.areas()[k2].contains(v) {
                        assert(s0.areas().contains_key(k2) && s0.areas()[k2].contains(v));
                    }
                } else {
                    if self.areas()[k1].contains(v) {
                        assert(s0.areas().contains_key(k1) && s0.areas()[k1].contains(v));
                    }
                }
            }
            assert forall|k: u64, v: u64|
                self.areas().contains_key(k) && #[trigger] self.areas()[k].contains(v) implies maps_page(
                self.table(),
                self.areas()[k].map_type(),
                self.areas()[k].perm(),
                v,
            ) by {
                if k != start {
                    assert(s0.areas().contains_key(k) && s0.areas()[k].contains(v));
                    assert(maps_page(s0.table(), s0.areas()[k].map_type(), s0.areas()[k].perm(), v));
                    assert(!area.contains(v));
                    assert(s1.page_table@.contains_key(v));
                    assert(s1.page_table@[v] == s0.page_table@[v]);
                    if s0.areas()[k].map_type() == MapType::Framed {
                        assert(s0.frames().contains_key(s0@[v].spec_ppn().0));
                        assert(s1.frames().contains_key(s0@[v].spec_ppn().0));
                    }
                }
            }
            assert forall|v: u64| #[trigger] self@.contains_key(v) implies v == trampoline_vpn()
                || self.covered(v) by {
                if area.contains(v) {
                    assert(self.areas().contains_key(start) && self.areas()[start].contains(v));
                } else if v != trampoline_vpn() {
                    assert(s1.page_table@.contains_key(v));
                    assert(s0@.contains_key(v));
                    assert(s0.covered(v));
                    let k = choose|k: u64|
                        s0.areas().contains_key(k) && #[trigger] s0.areas()[k].contains(v);
                    assert(k != start);
                    assert(self.areas().contains_key(k) && self.areas()[k].contains(v));
                }
            }
            assert forall|k1: u64, k2: u64, v1: u64, v2: u64|
                self.areas().contains_key(k1) && self.areas().contains_key(k2) && self.areas()[k1].map_type()
                    == MapType::Framed && self.areas()[k2].map_type() == MapType::Framed
                    && #[trigger] self.areas()[k1].contains(v1) && #[trigger] self.areas()[k2].contains(
                    v2,
                ) && v1 != v2 implies self@[v1].spec_ppn() != self@[v2].spec_ppn() by {
                if k1 != start {
                    assert(s0.areas().contains_key(k1) && s0.areas()[k1].contains(v1));
                    assert(maps_page(s0.table(), MapType::Framed, s0.areas()[k1].perm(), v1));
                    assert(!area.contains(v1));
                    assert(s1.page_table@[v1] == s0.page_table@[v1]);
                }
                if k2 != start {
                    assert(s0.areas().contains_key(k2) && s0.areas()[k2].contains(v2));
                    assert(maps_page(s0.table(), MapType::Framed, s0.areas()[k2].perm(), v2));
                    assert(!area.contains(v2));
                    assert(s1.page_table@[v2] == s0.page_table@[v2]);
                }
                if k1 == start {
                    assert(maps_page(&s1.page_table, ty, perm, v1));
                    assert(!s0.frames().contains_key(s1.page_table@[v1].spec_ppn().0));
                }
                if k2 == start {
                    assert(maps_page(&s1.page_table, ty, perm, v2));
                    assert(!s0.frames().contains_key(s1.page_table@[v2].spec_ppn().0));
                }
            }
            assert(self.inv());
            // What the caller learns.
            assert(self.areas() =~= s0.areas().insert(area.start() as u64, area));
            assert forall|p: u64| #[trigger]
                s0.frames().contains_key(p) implies self.frames().contains_key(p)
                && self.frames()[p] == s0.frames()[p] by {
                assert(s1.frames().contains_key(p) && s1.frames()[p] == s0.frames()[p]);
                if data.is_some() {
                    if frame_image(&s1.page_table, area.start(), area.end()).contains(p) {
                        let v = choose|v: u64|
                            area.start() <= v < area.end() && s1.page_table@.contains_key(v) && (
                            #[trigger] s1.page_table@[v]).spec_ppn().0 == p;
                        assert(!s0.frames().contains_key(s1.page_table@[v].spec_ppn().0));
                    }
                }
            }
            if ty == MapType::Framed {
                assert forall|v: u64| area.contains(v) implies !s0.frames().contains_key(
                    (#[trigger] self@[v]).spec_ppn().0,
                ) && self.page_bytes(v) == initial_bytes(gdata, v - area.start()) by {
                    assert(maps_page(&s1.page_table, ty, perm, v));
                    assert(s1.frames()[s1.page_table@[v].spec_ppn().0] == zero_page());
                }
                assert(frame_image(self.table(), area.start(), area.end()) =~= frame_image(
                    &s1.page_table,
                    area.start(),
                    area.end(),
                ));
            } else {
                assert(self.frames() =~= s0.frames());
            }
        }
        Ok(())
    }

    /// Adds a framed area for the pages that hold any byte of `[start_va, end_va)`.
    pub fn insert_framed_area(
        &mut self,
        allocator: &mut StackFrameAllocator,
        start_va: VirtAddr,
        end_va: VirtAddr,
        permission: MapPermission,
    ) -> (r: Result<(), MemError>)
        requires
            old(self).inv(),
            old(allocator).wf(),
            old(self).accounted(old(allocator)),
            start_va.wf(),
            end_va.wf(),
            permission.wf(),
            start_va.0 / 4096 <= (end_va.0 + 4095) / 4096,
            !(start_va.0 / 4096 <= trampoline_vpn() < (end_va.0 + 4095) / 4096),
            forall|v: u64|
                start_va.0 / 4096 <= v < (end_va.0 + 4095) / 4096 ==> !(#[trigger] old(
                    self,
                )@.contains_key(v)),
            old(self).areas().contains_key(start_va.0 / 4096) ==> old(self).areas()[start_va.0
                / 4096].range().len() == 0,
        ensures
            final(allocator).wf(),
            r.is_ok() <==> old(allocator).free_count() >= frames_needed(
                old(self).lacks(),
                true,
                start_va.0 as int / 4096,
                (end_va.0 + 4095) / 4096,
            ),
            r.is_ok() ==> {
                &&& final(allocator).free_count() == old(allocator).free_count() - frames_needed(
                    old(self).lacks(),
                    true,
                    start_va.0 as int / 4096,
                    (end_va.0 + 4095) / 4096,
                )
                &&& final(self).lacks() == lacks_after(
                    old(self).lacks(),
                    start_va.0 as int / 4096,
                    (end_va.0 + 4095) / 4096,
                )
                &&& final(self).inv()
                &&& final(self).accounted(final(allocator))
                &&& final(self).table().root() == old(self).table().root()
                &&& foreign(final(self).table(), final(allocator)) == foreign(
                    old(self).table(),
                    old(allocator),
                )
                &&& final(self).areas().contains_key(start_va.0 / 4096)
                &&& final(self).areas()[start_va.0 / 4096].end() == (end_va.0 + 4095) / 4096
                &&& final(self).areas()[start_va.0 / 4096].map_type() == MapType::Framed
                &&& final(self).areas()[start_va.0 / 4096].perm() == permission
                &&& Self::pushed(
                    old(self),
                    final(self),
                    final(self).areas()[start_va.0 / 4096],
                    None,
                )
            },
    {
        let area = MapArea::new(start_va, end_va, MapType::Framed, permission);
        self.push(allocator, area, None)
    }
}


impl MemorySet {
    /// Unmapping the tail of an area, and moving its end accordingly or
    /// dropping the then empty area, leaves the address space well formed.
    proof fn lemma_shrunk(s0: &MemorySet, s1: &MemorySet, k: u64, e: u64, keep: bool)
        requires
            s0.inv(),
            s0.areas().contains_key(k),
            s0.areas()[k].start() <= e <= s0.areas()[k].end(),
            !keep ==> e == s0.areas()[k].start(),
            s1.table().inv(),
            s1@ == s1.table()@,
            unmapped_range(
                s0.table(),
                s1.table(),
                s0.areas()[k].map_type(),
                e as int,
                s0.areas()[k].end(),
            ),
            s1.areas() == (if keep {
                s0.areas().insert(k, s0.areas()[k].with_end(e))
            } else {
                s0.areas().remove(k)
            }),
        ensures
            s1.inv(),
    {
        let a = s0.areas()[k];
        s0.table().lemma_inv_facts();
        assert forall|j: u64| #[trigger] s1.areas().contains_key(j) implies s1.areas()[j].start() == j
            && s1.areas()[j].wf() && !s1.areas()[j].contains(trampoline_vpn()) by {
            assert(s0.areas().contains_key(j));
        }
        assert forall|k1: u64, k2: u64, v: u64|
            s1.areas().contains_key(k1) && s1.areas().contains_key(k2) && k1 != k2 implies !(
        #[trigger] s1.areas()[k1].contains(v) && #[trigger] s1.areas()[k2].contains(v)) by {
            assert(s0.areas().contains_key(k1) && s0.areas().contains_key(k2));
            if s1.areas()[k1].contains(v) && s1.areas()[k2].contains(v) {
                assert(s0.areas()[k1].contains(v));
                assert(s0.areas()[k2].contains(v));
            }
        }
        assert forall|j: u64, v: u64|
            s1.areas().contains_key(j) && #[trigger] s1.areas()[j].contains(v) implies !(e <= v
            < a.end()) && s0.areas().contains_key(j) && s0.areas()[j].contains(v) by {
            assert(s0.areas().contains_key(j));
            if j != k {
                assert(s0.areas()[j].contains(v));
                if e <= v < a.end() {
                    assert(s0.areas()[k].contains(v));
                }
            }
        }
        assert forall|j: u64, v: u64|
            s1.areas().contains_key(j) && #[trigger] s1.areas()[j].contains(v) implies maps_page(
            s1.table(),
            s1.areas()[j].map_type(),
            s1.areas()[j].perm(),
            v,
        ) by {
            assert(s0.areas().contains_key(j) && s0.areas()[j].contains(v));
            assert(maps_page(s0.table(), s0.areas()[j].map_type(), s0.areas()[j].perm(), v));
            assert(s1.table()@.contains_key(v));
            assert(s1.table()@[v] == s0.table()@[v]);
            if s0.areas()[j].map_type() == MapType::Framed && a.map_type() == MapType::Framed {
                let p = s0@[v].spec_ppn().0;
                if frame_image(s0.table(), e as int, a.end()).contains(p) {
                    let w = choose|w: u64|
                        e <= w < a.end() && s0.table()@.contains_key(w) && (
                        #[trigger] s0.table()@[w]).spec_ppn().0 == p;
                    assert(s0.areas()[k].contains(w));
                    assert(s0@[v].spec_ppn() != s0@[w].spec_ppn());
                }
                assert(s1.table().frames().dom().contains(p));
            }
        }
        assert forall|v: u64| #[trigger] s1@.contains_key(v) implies v == trampoline_vpn()
            || s1.covered(v) by {
            assert(s0@.contains_key(v));
            if v != trampoline_vpn() {
                let j = choose|j: u64|
                    s0.areas().contains_key(j) && #[trigger] s0.areas()[j].contains(v);
                if j == k {
                    assert(keep);
                    assert(s1.areas().contains_key(k) && s1.areas()[k].contains(v));
                } else {
                    assert(s1.areas().contains_key(j) && s1.areas()[j].contains(v));
                }
            }
        }
        assert forall|k1: u64, k2: u64, v1: u64, v2: u64|
            s1.areas().contains_key(k1) && s1.areas().contains_key(k2) && s1.areas()[k1].map_type()
                == MapType::Framed && s1.areas()[k2].map_type() == MapType::Framed
                && #[trigger] s1.areas()[k1].contains(v1) && #[trigger] s1.areas()[k2].contains(
                v2,
            ) && v1 != v2 implies s1@[v1].spec_ppn() != s1@[v2].spec_ppn() by {
            assert(s0.areas().contains_key(k1) && s0.areas()[k1].contains(v1));
            assert(s0.areas().contains_key(k2) && s0.areas()[k2].contains(v2));
            assert(maps_page(s0.table(), s0.areas()[k1].map_type(), s0.areas()[k1].perm(), v1));
            assert(maps_page(s0.table(), s0.areas()[k2].map_type(), s0.areas()[k2].perm(), v2));
            assert(s1.table()@[v1] == s0.table()@[v1]);
            assert(s1.table()@[v2] == s0.table()@[v2]);
        }
    }

    /// The pages of an area are mapped to frames of their own.
    proof fn lemma_area_frames_distinct(&self, k: u64)
        requires
            self.inv(),
            self.areas().contains_key(k),
            self.areas()[k].map_type() == MapType::Framed,
        ensures
            frames_distinct(self.table(), self.areas()[k].start(), self.areas()[k].end()),
            forall|v: u64|
                self.areas()[k].contains(v) ==> #[trigger] maps_page(
                    self.table(),
                    self.areas()[k].map_type(),
                    self.areas()[k].perm(),
                    v,
                ),
    {
        let a = self.areas()[k];
        assert forall|v1: u64, v2: u64|
            a.start() <= v1 < a.end() && a.start() <= v2 < a.end() && v1 != v2 implies (
        #[trigger] self.table()@[v1]).spec_ppn() != (#[trigger] self.table()@[v2]).spec_ppn() by {
            assert(self.areas()[k].contains(v1) && self.areas()[k].contains(v2));
        }
        assert forall|v: u64| self.areas()[k].contains(v) implies #[trigger] maps_page(
            self.table(),
            self.areas()[k].map_type(),
            self.areas()[k].perm(),
            v,
        ) by {}
    }

    /// Unmaps the area that starts at page `start_vpn` and forgets it; does
    /// nothing when no area starts there.
    pub fn remove_area_with_start_vpn(
        &mut self,
        allocator: &mut StackFrameAllocator,
        start_vpn: VirtPageNum,
    )
        requires
            old(self).inv(),
            old(allocator).wf(),
            old(self).accounted(old(allocator)),
        ensures
            final(self).inv(),
            final(allocator).wf(),
            final(self).accounted(final(allocator)),
            final(self).table().root() == old(self).table().root(),
            final(self).table().table_frames() == old(self).table().table_frames(),
            final(self).lacks() == old(self).lacks(),
            foreign(final(self).table(), final(allocator)) == foreign(
                old(self).table(),
                old(allocator),
            ),
            final(self).areas() == old(self).areas().remove(start_vpn.0),
            old(self).areas().contains_key(start_vpn.0) ==> {
                let a = old(self).areas()[start_vpn.0];
                &&& unmapped_range(
                    old(self).table(),
                    final(self).table(),
                    a.map_type(),
                    a.start(),
                    a.end(),
                )
                &&& final(allocator).free_count() == old(allocator).free_count() + (if a.map_type()
                    == MapType::Framed {
                    a.range().len()
                } else {
                    0nat
                })
            },
            !old(self).areas().contains_key(start_vpn.0) ==> {
                &&& final(self)@ == old(self)@
                &&& final(self).frames() == old(self).frames()
                &&& *final(allocator) == *old(allocator)
            },
    {
        let ghost s0 = *self;
        match self.areas.remove(&start_vpn.0) {
            Some(area) => {
                proof {
                    assert(s0.areas().contains_key(start_vpn.0) && s0.areas()[start_vpn.0] == area);
                    assert forall|v: u64| area.contains(v) implies #[trigger] maps_page(
                        s0.table(),
                        area.map_type(),
                        area.perm(),
                        v,
                    ) by {
                        assert(s0.areas()[start_vpn.0].contains(v));
                    }
                    if area.map_type() == MapType::Framed {
                        s0.lemma_area_frames_distinct(start_vpn.0);
                    }
                }
                area.unmap(&mut self.page_table, allocator);
                proof {
                    assert(self.areas() =~= s0.areas().remove(start_vpn.0));
                    Self::lemma_shrunk(&s0, self, start_vpn.0, start_vpn.0, false);
                }
            },
            None => {
                proof {
                    assert(self.areas() =~= s0.areas().remove(start_vpn.0));
                    assert(self.areas() =~= s0.areas());
                }
            },
        }
    }

    /// Moves the end of the area that starts at the page of `start` down to
    /// the first page at or after `new_end`, unmapping the pages given up.
    /// Returns whether an area starts there.
    pub fn shrink_to(
        &mut self,
        allocator: &mut StackFrameAllocator,
        start: VirtAddr,
        new_end: VirtAddr,
    ) -> (r: bool)
        requires
            old(self).inv(),
            old(allocator).wf(),
            old(self).accounted(old(allocator)),
            old(self).areas().contains_key(start.0 / 4096) ==> old(self).areas()[start.0
                / 4096].start() <= (new_end.0 + 4095) / 4096 <= old(self).areas()[start.0
                / 4096].end(),
        ensures
            final(self).inv(),
            final(allocator).wf(),
            final(self).accounted(final(allocator)),
            final(self).table().root() == old(self).table().root(),
            final(self).table().table_frames() == old(self).table().table_frames(),
            final(self).lacks() == old(self).lacks(),
            foreign(final(self).table(), final(allocator)) == foreign(
                old(self).table(),
                old(allocator),
            ),
            r == old(self).areas().contains_key(start.0 / 4096),
            r ==> {
                let k = start.0 / 4096;
                let e = ((new_end.0 + 4095) / 4096) as u64;
                let a = old(self).areas()[k];
                &&& final(self).areas() == old(self).areas().insert(k, a.with_end(e))
                &&& unmapped_range(
                    old(self).table(),
                    final(self).table(),
                    a.map_type(),
                    e as int,
                    a.end(),
                )
                &&& final(allocator).free_count() == old(allocator).free_count() + (if a.map_type()
                    == MapType::Framed {
                    (a.end() - e) as nat
                } else {
                    0nat
                })
            },
            !r ==> {
                &&& final(self).areas() == old(self).areas()
                &&& final(self)@ == old(self)@
                &&& final(self).frames() == old(self).frames()
                &&& *final(allocator) == *old(allocator)
            },
    {
        let ghost s0 = *self;
        let k = start.floor().0;
        match self.areas.remove(&k) {
            Some(area) => {
                let mut area = area;
                proof {
                    assert(s0.areas().contains_key(k) && s0.areas()[k] == area);
                    assert forall|v: u64| area.contains(v) implies #[trigger] maps_page(
                        s0.table(),
                        area.map_type(),
                        area.perm(),
                        v,
                    ) by {
                        assert(s0.areas()[k].contains(v));
                    }
                    if area.map_type() == MapType::Framed {
                        s0.lemma_area_frames_distinct(k);
                    }
                }
                area.shrink_to(&mut self.page_table, allocator, new_end.ceil());
                self.areas.insert(k, area);
                proof {
                    let e = ((new_end.0 + 4095) / 4096) as u64;
                    assert(self.areas() =~= s0.areas().insert(k, s0.areas()[k].with_end(e)));
                    Self::lemma_shrunk(&s0, self, k, e, true);
                }
                true
            },
            None => {
                proof {
                    assert(self.areas() =~= s0.areas());
                }
                false
            },
        }
    }

    /// Mapping further pages at the end of an area and moving its end
    /// accordingly leaves the address space well formed.
    proof fn lemma_grown(s0: &MemorySet, s1: &MemorySet, k: u64, e: u64)
        requires
            s0.inv(),
            s0.areas().contains_key(k),
            s0.areas()[k].end() <= e <= VPN_LIMIT,
            !(s0.areas()[k].end() <= trampoline_vpn() < e),
            forall|v: u64|
                s0.areas()[k].end() <= v < e ==> !(#[trigger] s0@.contains_key(v)),
            s1.table().inv(),
            s1@ == s1.table()@,
            mapped_range(
                s0.table(),
                s1.table(),
                s0.areas()[k].map_type(),
                s0.areas()[k].perm(),
                s0.areas()[k].end(),
                e as int,
            ),
            s1.areas() == s0.areas().insert(k, s0.areas()[k].with_end(e)),
        ensures
            s1.inv(),
    {
        let a = s0.areas()[k];
        let b = a.with_end(e);
        s0.table().lemma_inv_facts();
        // A page of an area of `s0` is not one of the added pages.
        assert forall|j: u64, v: u64|
            s0.areas().contains_key(j) && #[trigger] s0.areas()[j].contains(v) implies !(a.end()
            <= v < e) by {
            assert(maps_page(s0.table(), s0.areas()[j].map_type(), s0.areas()[j].perm(), v));
            assert(s0@.contains_key(v));
        }
        assert forall|j: u64| #[trigger] s1.areas().contains_key(j) implies s1.areas()[j].start() == j
            && s1.areas()[j].wf() && !s1.areas()[j].contains(trampoline_vpn()) by {
            assert(s0.areas().contains_key(j));
            if j == k {
                assert(!a.contains(trampoline_vpn()));
            }
        }
        assert forall|k1: u64, k2: u64, v: u64|
            s1.areas().contains_key(k1) && s1.areas().contains_key(k2) && k1 != k2 implies !(
        #[trigger] s1.areas()[k1].contains(v) && #[trigger] s1.areas()[k2].contains(v)) by {
            assert(s0.areas().contains_key(k1) && s0.areas().contains_key(k2));
            if s1.areas()[k1].contains(v) && s1.areas()[k2].contains(v) {
                if k1 == k {
                    assert(s0.areas()[k2].contains(v));
                    if !a.contains(v) {
                        assert(a.end() <= v < e);
                    } else {
                        assert(s0.areas()[k1].contains(v));
                    }
                } else if k2 == k {
                    assert(s0.areas()[k1].contains(v));
                    if !a.contains(v) {
                        assert(a.end() <= v < e);
                    } else {
                        assert(s0.areas()[k2].contains(v));
                    }
                } else {
                    assert(s0.areas()[k1].contains(v));
                    assert(s0.areas()[k2].contains(v));
                }
            }
        }
        assert forall|j: u64, v: u64|
            s1.areas().contains_key(j) && #[trigger] s1.areas()[j].contains(v) implies maps_page(
            s1.table(),
            s1.areas()[j].map_type(),
            s1.areas()[j].perm(),
            v,
        ) by {
            assert(s0.areas().contains_key(j));
            if a.end() <= v < e {
                assert(j == k) by {
                    if j != k {
                        assert(s0.areas()[j].contains(v));
                    }
                }
                assert(maps_page(s1.table(), a.map_type(), a.perm(), v));
            } else {
                assert(s0.areas()[j].contains(v));
                assert(maps_page(s0.table(), s0.areas()[j].map_type(), s0.areas()[j].perm(), v));
                assert(s1.table()@.contains_key(v));
                assert(s1.table()@[v] == s0.table()@[v]);
                if s0.areas()[j].map_type() == MapType::Framed {
                    assert(s0.frames().contains_key(s0@[v].spec_ppn().0));
                }
            }
        }
        assert forall|v: u64| #[trigger] s1@.contains_key(v) implies v == trampoline_vpn()
            || s1.covered(v) by {
            if a.end() <= v < e {
                assert(s1.areas().contains_key(k) && s1.areas()[k].contains(v));
            } else if v != trampoline_vpn() {
                assert(s1.table()@.contains_key(v));
                assert(s0@.contains_key(v));
                let j = choose|j: u64|
                    s0.areas().contains_key(j) && #[trigger] s0.areas()[j].contains(v);
                assert(s1.areas().contains_key(j) && s1.areas()[j].contains(v));
            }
        }
        assert forall|k1: u64, k2: u64, v1: u64, v2: u64|
            s1.areas().contains_key(k1) && s1.areas().contains_key(k2) && s1.areas()[k1].map_type()
                == MapType::Framed && s1.areas()[k2].map_type() == MapType::Framed
                && #[trigger] s1.areas()[k1].contains(v1) && #[trigger] s1.areas()[k2].contains(
                v2,
            ) && v1 != v2 implies s1@[v1].spec_ppn() != s1@[v2].spec_ppn() by {
            assert(s0.areas().contains_key(k1) && s0.areas().contains_key(k2));
            let new1 = a.end() <= v1 < e;
            let new2 = a.end() <= v2 < e;
            if new1 {
                assert(k1 == k) by {
                    if k1 != k {
                        assert(s0.areas()[k1].contains(v1));
                    }
                }
                assert(maps_page(s1.table(), a.map_type(), a.perm(), v1));
                assert(!s0.frames().contains_key(s1.table()@[v1].spec_ppn().0));
            } else {
                assert(s0.areas()[k1].contains(v1));
                assert(maps_page(s0.table(), s0.areas()[k1].map_type(), s0.areas()[k1].perm(), v1));
                assert(s1.table()@[v1] == s0.table()@[v1]);
            }
            if new2 {
                assert(k2 == k) by {
                    if k2 != k {
                        assert(s0.areas()[k2].contains(v2));
                    }
                }
                assert(maps_page(s1.table(), a.map_type(), a.perm(), v2));
                assert(!s0.frames().contains_key(s1.table()@[v2].spec_ppn().0));
            } else {
                assert(s0.areas()[k2].contains(v2));
                assert(maps_page(s0.table(), s0.areas()[k2].map_type(), s0.areas()[k2].perm(), v2));
                assert(s1.table()@[v2] == s0.table()@[v2]);
            }
        }
    }

    /// Moves the end of the area that starts at the page of `start` up to
    /// the first page at or after `new_end`, mapping the pages gained.
    /// Returns whether an area starts there.
    pub fn append_to(
        &mut self,
        allocator: &mut StackFrameAllocator,
        start: VirtAddr,
        new_end: VirtAddr,
    ) -> (r: Result<bool, MemError>)
        requires
            old(self).inv(),
            old(allocator).wf(),
            old(self).accounted(old(allocator)),
            old(self).areas().contains_key(start.0 / 4096) ==> {
                let a = old(self).areas()[start.0 / 4096];
                let e = (new_end.0 + 4095) / 4096;
                &&& a.end() <= e <= VPN_LIMIT
                &&& !(a.end() <= trampoline_vpn() < e)
                &&& forall|v: u64| a.end() <= v < e ==> !(#[trigger] old(self)@.contains_key(v))
            },
        ensures
            final(allocator).wf(),
            !old(self).areas().contains_key(start.0 / 4096) ==> {
                &&& r == Ok::<bool, MemError>(false)
                &&& final(self).inv()
                &&& final(self).areas() == old(self).areas()
                &&& final(self)@ == old(self)@
                &&& final(self).frames() == old(self).frames()
                &&& final(self).table() == old(self).table()
                &&& *final(allocator) == *old(allocator)
            },
            old(self).areas().contains_key(start.0 / 4096) ==> {
                let k = start.0 / 4096;
                let e = ((new_end.0 + 4095) / 4096) as u64;
                let a = old(self).areas()[k];
                &&& r != Ok::<bool, MemError>(false)
                &&& r.is_ok() <==> old(allocator).free_count() >= a.growth_demand(
                    old(self).lacks(),
                    e as int,
                )
                &&& r.is_ok() ==> {
                    &&& final(allocator).free_count() == old(allocator).free_count()
                        - a.growth_demand(old(self).lacks(), e as int)
                    &&& final(self).lacks() == lacks_after(old(self).lacks(), a.end(), e as int)
                    &&& final(self).inv()
                    &&& final(self).accounted(final(allocator))
                    &&& final(self).table().root() == old(self).table().root()
                    &&& foreign(final(self).table(), final(allocator)) == foreign(
                        old(self).table(),
                        old(allocator),
                    )
                    &&& final(self).areas() == old(self).areas().insert(k, a.with_end(e))
                    &&& mapped_range(
                        old(self).table(),
                        final(self).table(),
                        a.map_type(),
                        a.perm(),
                        a.end(),
                        e as int,
                    )
                }
            },
    {
        let ghost s0 = *self;
        let k = start.floor().0;
        match self.areas.remove(&k) {
            Some(area) => {
                let mut area = area;
                proof {
                    assert(s0.areas().contains_key(k) && s0.areas()[k] == area);
                }
                match area.append_to(&mut self.page_table, allocator, new_end.ceil()) {
                    Ok(()) => {},
                    Err(e) => {
                        return Err(e);
                    },
                }
                self.areas.insert(k, area);
                proof {
                    let e = ((new_end.0 + 4095) / 4096) as u64;
                    assert(self.areas() =~= s0.areas().insert(k, s0.areas()[k].with_end(e)));
                    Self::lemma_grown(&s0, self, k, e);
                }
                Ok(true)
            },
            None => {
                proof {
                    assert(self.areas() =~= s0.areas());
                }
                Ok(false)
            },
        }
    }

    /// Gives every frame of the address space back to the allocator and
    /// forgets all areas.
    pub fn recycle_pages(&mut self, allocator: &mut StackFrameAllocator)
        requires
            old(self).inv(),
            old(allocator).wf(),
            old(self).accounted(old(allocator)),
        ensures
            final(allocator).wf(),
            final(self).owned() == Set::<u64>::empty(),
            final(self).frames() == Map::<u64, Seq<u8>>::empty(),
            final(self).areas() == Map::<u64, MapArea>::empty(),
            final(self).table().root() == old(self).table().root(),
            final(allocator).allocated() == foreign(old(self).table(), old(allocator)),
            final(allocator).free_count() == old(allocator).free_count() + old(self).owned().len(),
    {
        self.areas.clear();
        self.page_table.recycle(allocator);
    }
}


impl MemorySet {
    /// Writing into frames changes neither what is mapped nor which frames are owned.
    proof fn lemma_same_mapping(s0: &MemorySet, s1: &MemorySet)
        requires
            s0.inv(),
            s1.table().inv(),
            s1@ == s1.table()@,
            s1@ == s0@,
            s1.areas() == s0.areas(),
            s1.frames().dom() == s0.frames().dom(),
        ensures
            s1.inv(),
    {
        assert forall|k: u64, v: u64|
            s1.areas().contains_key(k) && #[trigger] s1.areas()[k].contains(v) implies maps_page(
            s1.table(),
            s1.areas()[k].map_type(),
            s1.areas()[k].perm(),
            v,
        ) by {
            assert(maps_page(s0.table(), s0.areas()[k].map_type(), s0.areas()[k].perm(), v));
            if s0.areas()[k].map_type() == MapType::Framed {
                assert(s0.frames().dom().contains(s0@[v].spec_ppn().0));
            }
        }
        assert forall|v: u64| #[trigger] s1@.contains_key(v) implies v == trampoline_vpn()
            || s1.covered(v) by {
            if v != trampoline_vpn() {
                assert(s0.covered(v));
                let k = choose|k: u64|
                    s0.areas().contains_key(k) && #[trigger] s0.areas()[k].contains(v);
                assert(s1.areas().contains_key(k) && s1.areas()[k].contains(v));
            }
        }
    }

    /// Copies the bytes of every page of the framed area that starts at
    /// page `k` from `another` into this address space, which has the same area.
    fn copy_area_from(&mut self, another: &MemorySet, k: u64)
        requires
            old(self).inv(),
            another.inv(),
            another.areas().contains_key(k),
            old(self).areas().contains_key(k),
            old(self).areas()[k] == another.areas()[k],
            another.areas()[k].map_type() == MapType::Framed,
        ensures
            final(self).inv(),
            final(self)@ == old(self)@,
            final(self).areas() == old(self).areas(),
            final(self).table().root() == old(self).table().root(),
            final(self).table().table_frames() == old(self).table().table_frames(),
            final(self).frames().dom() == old(self).frames().dom(),
            final(self).owned() == old(self).owned(),
            final(self).lacks() == old(self).lacks(),
            forall|v: u64|
                another.areas()[k].contains(v) ==> #[trigger] final(self).page_bytes(v)
                    == another.page_bytes(v),
            forall|p: u64|
                old(self).frames().contains_key(p) && !frame_image(
                    old(self).table(),
                    another.areas()[k].start(),
                    another.areas()[k].end(),
                ).contains(p) ==> #[trigger] final(self).frames()[p] == old(self).frames()[p],
    {
        let ghost s0 = *self;
        let area = *another.areas.get(&k).unwrap();
        let first = area.get_start().0;
        let end = area.get_end().0;
        let mut cur: u64 = first;
        proof {
            s0.lemma_area_frames_distinct(k);
            another.lemma_area_frames_distinct(k);
            another.table().lemma_inv_facts();
            s0.table().lemma_inv_facts();
        }
        while cur < end
            invariant
                first <= cur <= end,
                first == area.start(),
                end == area.end(),
                end <= VPN_LIMIT,
                area == another.areas()[k],
                another.inv(),
                another.areas().contains_key(k),
                s0.inv(),
                s0.areas().contains_key(k),
                s0.areas()[k] == area,
                area.map_type() == MapType::Framed,
                frames_distinct(s0.table(), area.start(), area.end()),
                self.inv(),
                self@ == s0@,
                self.areas() == s0.areas(),
                self.table().root() == s0.table().root(),
                self.table().table_frames() == s0.table().table_frames(),
                self.frames().dom() == s0.frames().dom(),
                self.lacks() == s0.lacks(),
                forall|v: u64|
                    first <= v < cur ==> #[trigger] self.page_bytes(v) == another.page_bytes(v),
                forall|p: u64|
                    s0.frames().contains_key(p) && !frame_image(
                        s0.table(),
                        first as int,
                        cur as int,
                    ).contains(p) ==> #[trigger] self.frames()[p] == s0.frames()[p],
            decreases end - cur,
        {
            let ghost s1 = *self;
            proof {
                assert(another.areas()[k].contains(cur));
                assert(s0.areas()[k].contains(cur));
                assert(maps_page(another.table(), MapType::Framed, area.perm(), cur));
                assert(maps_page(s0.table(), MapType::Framed, area.perm(), cur));
                another.table().lemma_inv_facts();
                self.table().lemma_inv_facts();
            }
            let src_ppn = another.page_table.find_ppn(VirtPageNum(cur)).unwrap();
            let dst_ppn = self.page_table.find_ppn(VirtPageNum(cur)).unwrap();
            let bytes = another.page_table.frame_bytes(src_ppn).unwrap();
            self.page_table.write_frame(dst_ppn, 0, bytes.as_slice());
            proof {
                assert(self.frames().dom() =~= s0.frames().dom());
                assert(self.lacks() =~= s1.lacks());
                Self::lemma_same_mapping(&s1, self);
                assert(splice(s1.frames()[dst_ppn.0], 0, bytes@) =~= bytes@);
                assert forall|v: u64| first <= v < cur + 1 implies #[trigger] self.page_bytes(v)
                    == another.page_bytes(v) by {
                    if v != cur {
                        assert(s1.page_bytes(v) == another.page_bytes(v));
                        assert((s0.table()@[v]).spec_ppn() != (s0.table()@[cur]).spec_ppn());
                    }
                }
                assert forall|p: u64|
                    s0.frames().contains_key(p) && !frame_image(
                        s0.table(),
                        first as int,
                        cur + 1,
                    ).contains(p) implies #[trigger] self.frames()[p] == s0.frames()[p] by {
                    if frame_image(s0.table(), first as int, cur as int).contains(p) {
                        let v = choose|v: u64|
                            first <= v < cur && s0.table()@.contains_key(v) && (
                            #[trigger] s0.table()@[v]).spec_ppn().0 == p;
                        assert(first <= v < cur + 1 && s0.table()@.contains_key(v) && s0.table()@[v].spec_ppn().0
                            == p);
                    }
                    if p == dst_ppn.0 {
                        assert(first <= cur < cur + 1 && s0.table()@.contains_key(cur)
                            && s0.table()@[cur].spec_ppn().0 == p);
                    }
                }
            }
            cur += 1;
        }
        proof {
            assert(self.owned() =~= s0.owned());
        }
    }

    /// The frames that a deep copy of this address space takes: the root
    /// directory, the two directories on the walk to the trampoline, and
    /// what its areas take, mapped one after the other by their first page.
    pub open spec fn copy_demand(&self) -> nat {
        3 + areas_demand(trampoline_lacks(), self.areas(), area_starts(self.areas()))
    }

    /// A deep copy of `another`: the same areas with the same permissions,
    /// each framed page backed by a frame of its own that holds the same
    /// bytes, each identical page mapped to the same physical page, and the
    /// trampoline mapped to the page that holds `strampoline`. Fails exactly
    /// when the allocator has fewer frames than the copy takes.
    pub fn from_another(
        allocator: &mut StackFrameAllocator,
        another: &MemorySet,
        strampoline: u64,
    ) -> (r: Result<Self, MemError>)
        requires
            old(allocator).wf(),
            another.inv(),
        ensures
            final(allocator).wf(),
            r.is_ok() <==> old(allocator).free_count() >= another.copy_demand(),
            r matches Ok(ms) ==> {
                &&& final(allocator).free_count() == old(allocator).free_count()
                    - another.copy_demand()
                &&& ms.inv()
                &&& ms.accounted(final(allocator))
                &&& foreign(ms.table(), final(allocator)) == old(allocator).allocated()
                &&& ms.areas() == another.areas()
                &&& ms.has_trampoline()
                &&& ms@[trampoline_vpn()] == (PageTableEntry {
                    bits: pte_bits(((strampoline % 0x100_0000_0000_0000) / 4096) as u64, 11),
                })
                &&& forall|k: u64, v: u64|
                    another.areas().contains_key(k) && #[trigger] another.areas()[k].contains(v)
                        ==> (another.areas()[k].map_type() == MapType::Framed ==> ms.page_bytes(v)
                        == another.page_bytes(v))
            },
    {
        let ghost a0 = *allocator;
        let mut ms = match Self::new_bare(allocator) {
            Ok(ms) => ms,
            Err(e) => {
                return Err(e);
            },
        };
        proof {
            assert(ms.lacks()[trampoline_vpn() as int] == ms.table().missing_tables(
                VirtPageNum(trampoline_vpn()),
            ));
        }
        match ms.map_trampoline(allocator, strampoline) {
            Ok(()) => {},
            Err(e) => {
                return Err(e);
            },
        }
        let keys = key_list(&another.areas);
        let ghost tramp = ms@[trampoline_vpn()];
        let ghost total = areas_demand(trampoline_lacks(), another.areas(), keys@);
        proof {
            lemma_increasing_unique(keys@, area_starts(another.areas()));
            assert(keys@.skip(0) =~= keys@);
        }
        let mut i: usize = 0;
        while i < keys.len()
            invariant
                i <= keys@.len(),
                keys@.no_duplicates(),
                forall|p: u64| keys@.contains(p) <==> another.areas().contains_key(p),
                a0 == *old(allocator),
                keys@ == area_starts(another.areas()),
                total == areas_demand(trampoline_lacks(), another.areas(), keys@),
                allocator.free_count() + 3 + total == a0.free_count() + areas_demand(
                    ms.lacks(),
                    another.areas(),
                    keys@.skip(i as int),
                ),
                another.inv(),
                allocator.wf(),
                ms.inv(),
                ms.accounted(allocator),
                foreign(ms.table(), allocator) == a0.allocated(),
                ms.has_trampoline(),
                ms@[trampoline_vpn()] == tramp,
                forall|k: u64| ms.areas().contains_key(k) <==> keys@.take(i as int).contains(k),
                forall|k: u64| #[trigger]
                    ms.areas().contains_key(k) ==> ms.areas()[k] == another.areas()[k],
                forall|k: u64, v: u64|
                    ms.areas().contains_key(k) && #[trigger] another.areas()[k].contains(v) ==> (
                    another.areas()[k].map_type() == MapType::Framed ==> ms.page_bytes(v)
                        == another.page_bytes(v)),
            decreases keys@.len() - i,
        {
            let k = keys[i];
            let ghost s1 = ms;
            proof {
                assert(keys@[i as int] == k);
                assert(keys@.contains(k));
                assert(another.areas().contains_key(k));
            }
            let area = *another.areas.get(&k).unwrap();
            proof {
                assert(area == another.areas()[k]);
                assert(keys@.skip(i as int)[0] == k);
                assert(keys@.skip(i as int).drop_first() =~= keys@.skip(i + 1));
                assert(!ms.areas().contains_key(k)) by {
                    let t = keys@.take(i as int);
                    if t.contains(k) {
                        let j = choose|j: int| 0 <= j < t.len() && t[j] == k;
                        assert(keys@[j] == k);
                    }
                }
                assert forall|v: u64| area.contains(v) implies !(#[trigger] ms@.contains_key(v)) by {
                    if ms@.contains_key(v) {
                        assert(another.areas()[k].contains(v));
                        assert(v != trampoline_vpn());
                        assert(ms.covered(v));
                        let j = choose|j: u64|
                            ms.areas().contains_key(j) && #[trigger] ms.areas()[j].contains(v);
                        assert(another.areas().contains_key(j)) by {
                            let t = keys@.take(i as int);
                            assert(t.contains(j));
                            let x = choose|x: int| 0 <= x < t.len() && t[x] == j;
                            assert(keys@[x] == j);
                            assert(keys@.contains(j));
                        }
                        assert(another.areas()[j].contains(v));
                    }
                }
            }
            match ms.push(allocator, area, None) {
                Ok(()) => {},
                Err(e) => {
                    return Err(e);
                },
            }
            let ghost s2 = ms;
            if let MapType::Framed = area.get_type() {
                ms.copy_area_from(another, k);
            }
            proof {
                assert(ms.lacks() == s2.lacks());
                assert(ms.accounted(allocator)) by {
                    assert forall|p: u64| #[trigger] ms.owned().contains(p) implies allocator.is_allocated(
                        p,
                    ) by {
                        assert(s2.owned().contains(p));
                    }
                }
                assert(foreign(ms.table(), allocator) =~= a0.allocated());
                assert forall|j: u64|
                    ms.areas().contains_key(j) <==> keys@.take(i as int + 1).contains(j) by {
                    crate::mm::page_table::lemma_take_contains(keys@, i as int, j);
                }
                assert forall|j: u64| #[trigger] ms.areas().contains_key(j) implies ms.areas()[j]
                    == another.areas()[j] by {
                    if j != k {
                        assert(s1.areas().contains_key(j));
                    }
                }
                assert forall|j: u64, v: u64|
                    ms.areas().contains_key(j) && #[trigger] another.areas()[j].contains(v)
                        && another.areas()[j].map_type() == MapType::Framed implies ms.page_bytes(v)
                    == another.page_bytes(v) by {
                    if another.areas()[j].map_type() == MapType::Framed {
                        if j == k {
                            assert(another.areas()[k].contains(v));
                        } else {
                            assert(s1.areas().contains_key(j));
                            assert(s1.page_bytes(v) == another.page_bytes(v));
                            // The page keeps its frame and the frame its bytes.
                            assert(s1.areas()[j].contains(v));
                            assert(maps_page(s1.table(), MapType::Framed, s1.areas()[j].perm(), v));
                            assert(!area.contains(v)) by {
                                if area.contains(v) {
                                    assert(another.areas()[k].contains(v));
                                }
                            }
                            assert(s2@[v] == s1@[v]);
                            let p = s1@[v].spec_ppn().0;
                            assert(s1.frames().contains_key(p));
                            assert(s2.frames()[p] == s1.frames()[p]);
                            if area.map_type() == MapType::Framed {
                                if frame_image(s2.table(), area.start(), area.end()).contains(p) {
                                    let w = choose|w: u64|
                                        area.start() <= w < area.end() && s2.table()@.contains_key(w)
                                            && (#[trigger] s2.table()@[w]).spec_ppn().0 == p;
                                    assert(area.contains(w));
                                    assert(!s1.frames().contains_key(s2@[w].spec_ppn().0));
                                }
                            }
                            assert(ms.frames()[p] == s2.frames()[p]);
                        }
                    }
                }
                assert(ms@[trampoline_vpn()] == tramp) by {
                    assert(!area.contains(trampoline_vpn()));
                    assert(s1@.contains_key(trampoline_vpn()));
                }
            }
            i += 1;
        }
        proof {
            assert(keys@.take(keys@.len() as int) =~= keys@);
            assert(ms.areas() =~= another.areas());
            assert(keys@.skip(keys@.len() as int).len() == 0);
        }
        Ok(ms)
    }
}


/// What the walks lack in an address space that maps the trampoline only.
pub open spec fn trampoline_lacks() -> Map<int, nat> {
    lacks_after(bare_lacks(), trampoline_vpn() as int, trampoline_vpn() + 1)
}

/// The first pages of the areas in `areas`, smallest first.
pub open spec fn area_starts(areas: Map<u64, MapArea>) -> Seq<u64> {
    choose|s: Seq<u64>| increasing(s) && forall|k: u64| s.contains(k) <==> areas.contains_key(k)
}

/// The frames that mapping the areas with the first pages `starts` takes, one
/// area after the other, where the walks lack `lacks` at first.
pub open spec fn areas_demand(lacks: Map<int, nat>, areas: Map<u64, MapArea>, starts: Seq<u64>) -> nat
    decreases starts.len(),
{
    if starts.len() == 0 {
        0
    } else {
        let first = areas[starts[0]];
        first.demand(lacks) + areas_demand(first.lacks_after(lacks), areas, starts.drop_first())
    }
}

/// The four bytes of `value`, least significant first.
pub open spec fn le_bytes(value: i32) -> Seq<u8> {
    let u = value as u32;
    seq![
        (u & 0xff) as u8,
        ((u >> 8) & 0xff) as u8,
        ((u >> 16) & 0xff) as u8,
        ((u >> 24) & 0xff) as u8,
    ]
}

impl MemorySet {
    /// Whether none of the pages `[s, e)` is mapped.
    pub fn range_free(&self, s: u64, e: u64) -> (r: bool)
        requires
            self.inv(),
        ensures
            r == (forall|v: u64| s <= v < e ==> !(#[trigger] self@.contains_key(v))),
    {
        if s >= e {
            return true;
        }
        if s <= 0x7ff_ffff && 0x7ff_ffff < e {
            if self.page_table.translate(VirtPageNum(0x7ff_ffff)).is_some() {
                assert(self@.contains_key(trampoline_vpn()));
                return false;
            }
        }
        let keys = key_list(&self.areas);
        let mut i: usize = 0;
        while i < keys.len()
            invariant
                i <= keys@.len(),
                s < e,
                self.inv(),
                forall|p: u64| keys@.contains(p) <==> self.areas().contains_key(p),
                forall|j: int, v: u64|
                    0 <= j < i && s <= v < e ==> !(#[trigger] self.areas()[keys@[j]].contains(v)),
            decreases keys@.len() - i,
        {
            let k = keys[i];
            proof {
                assert(keys@.contains(k));
            }
            let area = *self.areas.get(&k).unwrap();
            let (al, ar): (u64, u64) = (area.get_start().0, area.get_end().0);
            if al < ar && al < e && s < ar {
                proof {
                    let v = if s < al {
                        al
                    } else {
                        s
                    };
                    assert(self.areas()[k].contains(v));
                    assert(maps_page(self.table(), area.map_type(), area.perm(), v));
                    assert(self@.contains_key(v));
                }
                return false;
            }
            i += 1;
        }
        proof {
            assert forall|v: u64| s <= v < e implies !(#[trigger] self@.contains_key(v)) by {
                if self@.contains_key(v) {
                    if v != trampoline_vpn() {
                        assert(self.covered(v));
                        let k = choose|k: u64|
                            self.areas().contains_key(k) && #[trigger] self.areas()[k].contains(v);
                        assert(keys@.contains(k));
                        let j = choose|j: int| 0 <= j < keys@.len() && keys@[j] == k;
                        assert(!self.areas()[keys@[j]].contains(v));
                    }
                }
            }
        }
        true
    }

    /// Stores `b` at virtual address `va` if a program of this address space
    /// can reach a byte there; returns whether it did.
    pub fn write_user_byte(&mut self, va: u64, b: u8) -> (r: bool)
        requires
            old(self).inv(),
        ensures
            final(self).inv(),
            final(self)@ == old(self)@,
            final(self).areas() == old(self).areas(),
            final(self).owned() == old(self).owned(),
            final(self).table().root() == old(self).table().root(),
            r == mem_byte(old(self).table(), va as int).is_some(),
            r ==> {
                let a = va % 0x80_0000_0000;
                let p = old(self)@[a / 4096].spec_ppn().0;
                final(self).frames() == old(self).frames().insert(
                    p,
                    old(self).frames()[p].update((a % 4096) as int, b),
                )
            },
            !r ==> final(self).frames() == old(self).frames(),
    {
        let ghost s0 = *self;
        let r = self.page_table.write_byte(va, b);
        proof {
            Self::lemma_same_mapping(&s0, self);
            assert(self.owned() =~= s0.owned());
        }
        r
    }

    /// Removes every single-page framed area that starts at a page lying
    /// wholly within `[start_va, end_va)`; other pages are left alone.
    pub fn remove_framed_area(
        &mut self,
        allocator: &mut StackFrameAllocator,
        start_va: VirtAddr,
        end_va: VirtAddr,
    )
        requires
            old(self).inv(),
            old(allocator).wf(),
            old(self).accounted(old(allocator)),
        ensures
            final(self).inv(),
            final(allocator).wf(),
            final(self).accounted(final(allocator)),
            final(self).table().root() == old(self).table().root(),
            final(self).table().table_frames() == old(self).table().table_frames(),
            final(self).lacks() == old(self).lacks(),
            foreign(final(self).table(), final(allocator)) == foreign(
                old(self).table(),
                old(allocator),
            ),
            forall|k: u64|
                #![trigger final(self).areas().contains_key(k)]
                #![trigger old(self).areas().contains_key(k)]
                final(self).areas().contains_key(k) <==> old(self).areas().contains_key(k) && !(
                (start_va.0 + 4095) / 4096 <= k < end_va.0 / 4096 && Self::single_page(
                    old(self).areas()[k],
                )),
            forall|k: u64| #[trigger]
                final(self).areas().contains_key(k) ==> final(self).areas()[k] == old(
                    self,
                ).areas()[k],
            forall|v: u64|
                #![trigger final(self)@.contains_key(v)]
                #![trigger old(self)@.contains_key(v)]
                final(self)@.contains_key(v) <==> old(self)@.contains_key(v) && !((start_va.0
                    + 4095) / 4096 <= v < end_va.0 / 4096 && old(self).areas().contains_key(v)
                    && Self::single_page(old(self).areas()[v])),
            forall|v: u64| #[trigger]
                final(self)@.contains_key(v) ==> final(self)@[v] == old(self)@[v],
    {
        let ghost s0 = *self;
        let ghost a0 = *allocator;
        let first = start_va.ceil().0;
        let end = end_va.floor().0;
        let mut cur: u64 = first;
        while cur < end
            invariant
                first <= cur,
                cur <= end || cur == first,
                first == (start_va.0 + 4095) / 4096,
                end == end_va.0 / 4096,
                s0.inv(),
                self.inv(),
                allocator.wf(),
                self.accounted(allocator),
                self.table().root() == s0.table().root(),
                self.table().table_frames() == s0.table().table_frames(),
                self.lacks() == s0.lacks(),
                foreign(self.table(), allocator) == foreign(s0.table(), &a0),
                forall|k: u64|
                    #![trigger self.areas().contains_key(k)]
                    #![trigger s0.areas().contains_key(k)]
                    self.areas().contains_key(k) <==> s0.areas().contains_key(k) && !(first <= k
                        < cur && Self::single_page(s0.areas()[k])),
                forall|k: u64| #[trigger]
                    self.areas().contains_key(k) ==> self.areas()[k] == s0.areas()[k],
                forall|v: u64|
                    #![trigger self@.contains_key(v)]
                    #![trigger s0@.contains_key(v)]
                    self@.contains_key(v) <==> s0@.contains_key(v) && !(first <= v < cur
                        && s0.areas().contains_key(v) && Self::single_page(s0.areas()[v])),
                forall|v: u64| #[trigger] self@.contains_key(v) ==> self@[v] == s0@[v],
            decreases end - cur,
        {
            let ghost s1 = *self;
            let single = match self.areas.get(&cur) {
                Some(area) => area.get_end().0 == area.get_start().0 + 1 && (match area.get_type() {
                    MapType::Framed => true,
                    MapType::Identical => false,
                }) && area.get_start().0 < u64::MAX,
                None => false,
            };
            if single {
                proof {
                    assert(s1.areas().contains_key(cur));
                    assert(s1.areas()[cur] == s0.areas()[cur]);
                    assert(s1.areas()[cur].start() == cur);
                }
                self.remove_area_with_start_vpn(allocator, VirtPageNum(cur));
                proof {
                    let a = s1.areas()[cur];
                    assert forall|v: u64|
                        #![trigger self@.contains_key(v)]
                        #![trigger s0@.contains_key(v)]
                        self@.contains_key(v) <==> s0@.contains_key(v) && !(first <= v < cur + 1
                            && s0.areas().contains_key(v) && Self::single_page(s0.areas()[v])) by {
                        if v == cur {
                            assert(!self.table()@.contains_key(v));
                        } else {
                            assert(self.table()@.contains_key(v) == s1.table()@.contains_key(v));
                        }
                    }
                    assert forall|v: u64| #[trigger] self@.contains_key(v) implies self@[v] == s0@[v] by {
                        assert(v != cur);
                        assert(s1.table()@.contains_key(v));
                        assert(self.table()@[v] == s1.table()@[v]);
                    }
                    assert forall|k: u64|
                        #![trigger self.areas().contains_key(k)]
                        #![trigger s0.areas().contains_key(k)]
                        self.areas().contains_key(k) <==> s0.areas().contains_key(k) && !(first <= k
                            < cur + 1 && Self::single_page(s0.areas()[k])) by {
                        if k != cur {
                            assert(self.areas().contains_key(k) == s1.areas().contains_key(k));
                        }
                    }
                }
            } else {
                proof {
                    assert forall|k: u64|
                        #![trigger self.areas().contains_key(k)]
                        #![trigger s0.areas().contains_key(k)]
                        self.areas().contains_key(k) <==> s0.areas().contains_key(k) && !(first <= k
                            < cur + 1 && Self::single_page(s0.areas()[k])) by {
                        if k == cur {
                            if s0.areas().contains_key(k) && Self::single_page(s0.areas()[k]) {
                                assert(s1.areas().contains_key(k));
                                assert(s1.areas()[k] == s0.areas()[k]);
                                assert(s0.areas()[k].wf());
                                assert(s0.areas()[k].start() == k);
                                assert(single);
                            }
                            assert(self.areas().contains_key(k) == s0.areas().contains_key(k));
                        } else {
                            assert(self.areas().contains_key(k) == (s0.areas().contains_key(k) && !(
                            first <= k < cur && Self::single_page(s0.areas()[k]))));
                        }
                    }
                }
            }
            cur += 1;
        }
    }

    /// Whether `area` is one framed page.
    pub open spec fn single_page(area: MapArea) -> bool {
        area.end() == area.start() + 1 && area.map_type() == MapType::Framed
    }
}

/// Stores the four bytes of `value`, least significant first, at virtual
/// address `va_ptr` of the address space `memory_set`, if a program of the
/// address space can reach all four; returns whether it did.
pub fn translated_copyout(memory_set: &mut MemorySet, va_ptr: u64, value: i32) -> (r: bool)
    requires
        old(memory_set).inv(),
    ensures
        final(memory_set).inv(),
        final(memory_set)@ == old(memory_set)@,
        final(memory_set).areas() == old(memory_set).areas(),
        final(memory_set).owned() == old(memory_set).owned(),
        final(memory_set).table().root() == old(memory_set).table().root(),
        r == (va_ptr + 3 <= u64::MAX && forall|i: int|
            0 <= i < 4 ==> (#[trigger] mem_byte(old(memory_set).table(), va_ptr + i)).is_some()),
        r ==> forall|i: int|
            0 <= i < 4 ==> #[trigger] mem_byte(final(memory_set).table(), va_ptr + i) == Some(
                le_bytes(value)[i],
            ),
        !r ==> final(memory_set).frames() == old(memory_set).frames(),
{
    if va_ptr > u64::MAX - 3 {
        return false;
    }
    let ghost s0 = *memory_set;
    let mut i: u64 = 0;
    while i < 4
        invariant
            i <= 4,
            va_ptr + 3 <= u64::MAX,
            memory_set.inv(),
            *memory_set == s0,
            forall|j: int| 0 <= j < i ==> (#[trigger] mem_byte(s0.table(), va_ptr + j)).is_some(),
        decreases 4 - i,
    {
        if memory_set.page_table().read_byte(va_ptr + i).is_none() {
            assert(mem_byte(s0.table(), va_ptr + i as int).is_none());
            return false;
        }
        i += 1;
    }
    let u = value as u32;
    let bytes: [u8; 4] = [
        (u & 0xff) as u8,
        ((u >> 8) & 0xff) as u8,
        ((u >> 16) & 0xff) as u8,
        ((u >> 24) & 0xff) as u8,
    ];
    assert(bytes@ =~= le_bytes(value));
    let mut k: u64 = 0;
    while k < 4
        invariant
            k <= 4,
            va_ptr + 3 <= u64::MAX,
            s0.inv(),
            memory_set.inv(),
            memory_set@ == s0@,
            memory_set.areas() == s0.areas(),
            memory_set.owned() == s0.owned(),
            memory_set.table().root() == s0.table().root(),
            memory_set.frames().dom() == s0.frames().dom(),
            bytes@ == le_bytes(value),
            forall|j: int| 0 <= j < 4 ==> (#[trigger] mem_byte(s0.table(), va_ptr + j)).is_some(),
            forall|j: int|
                0 <= j < k ==> #[trigger] mem_byte(memory_set.table(), va_ptr + j) == Some(
                    le_bytes(value)[j],
                ),
        decreases 4 - k,
    {
        let ghost s1 = *memory_set;
        proof {
            assert(mem_byte(s0.table(), va_ptr + k as int).is_some());
            assert(mem_byte(s1.table(), va_ptr + k as int).is_some());
            s1.table().lemma_inv_facts();
        }
        let done = memory_set.write_user_byte(va_ptr + k, bytes[k as usize]);
        proof {
            assert(done);
            assert(memory_set.frames().dom() =~= s0.frames().dom());
            lemma_write_keeps_others(s1.table(), memory_set.table(), va_ptr as int, k as int, bytes[k as int]);
            assert forall|j: int| 0 <= j < k + 1 implies #[trigger] mem_byte(
                memory_set.table(),
                va_ptr + j,
            ) == Some(le_bytes(value)[j]) by {
                if j < k {
                    assert(mem_byte(s1.table(), va_ptr + j) == Some(le_bytes(value)[j]));
                }
            }
        }
        k += 1;
    }
    true
}

proof fn lemma_offsets_differ(va: int, j: int, k: int)
    requires
        0 <= va,
        0 <= j < 4,
        0 <= k < 4,
        j != k,
    ensures
        ((va + j) % 0x80_0000_0000) % 4096 != ((va + k) % 0x80_0000_0000) % 4096,
{
    let x = va + j;
    let y = va + k;
    assert((x % 0x80_0000_0000) % 4096 == x % 4096) by {
        vstd::arithmetic::div_mod::lemma_mod_mod(x, 4096, 0x800_0000);
    }
    assert((y % 0x80_0000_0000) % 4096 == y % 4096) by {
        vstd::arithmetic::div_mod::lemma_mod_mod(y, 4096, 0x800_0000);
    }
    assert(x % 4096 != y % 4096) by {
        let q = x / 4096;
        let r = y / 4096;
        assert(x == 4096 * q + x % 4096);
        assert(y == 4096 * r + y % 4096);
        if x % 4096 == y % 4096 {
            assert(x - y == 4096 * (q - r));
            assert(q == r);
        }
    }
}

/// Storing a byte at `va + k` changes that byte and none of the three others around it.
proof fn lemma_write_keeps_others(pt0: &PageTable, pt1: &PageTable, va: int, k: int, b: u8)
    requires
        0 <= va,
        0 <= k < 4,
        pt0.inv(),
        pt1@ == pt0@,
        mem_byte(pt0, va + k).is_some(),
        ({
            let a = (va + k) % 0x80_0000_0000;
            let p = pt0@[(a / 4096) as u64].spec_ppn().0;
            pt1.frames() == pt0.frames().insert(p, pt0.frames()[p].update(a % 4096, b))
        }),
    ensures
        mem_byte(pt1, va + k) == Some(b),
        forall|j: int| 0 <= j < 4 && j != k ==> #[trigger] mem_byte(pt1, va + j) == mem_byte(pt0, va + j),
{
    pt0.lemma_inv_facts();
    let a = (va + k) % 0x80_0000_0000;
    let p = pt0@[(a / 4096) as u64].spec_ppn().0;
    let page0 = pt0.frames()[p];
    assert(page0.len() == 4096);
    assert forall|j: int| 0 <= j < 4 && j != k implies #[trigger] mem_byte(pt1, va + j) == mem_byte(
        pt0,
        va + j,
    ) by {
        let c = (va + j) % 0x80_0000_0000;
        let v = (c / 4096) as u64;
        lemma_offsets_differ(va, j, k);
        if pt0@.contains_key(v) && pt0.frames().contains_key(pt0@[v].spec_ppn().0) {
            let q = pt0@[v].spec_ppn().0;
            if q == p {
                assert(pt1.frames()[q][c % 4096] == page0[c % 4096]);
            } else {
                assert(pt1.frames()[q] == pt0.frames()[q]);
            }
        }
    }
}


/// Whether no page lies in two of the areas.
pub open spec fn areas_disjoint(areas: Map<u64, MapArea>) -> bool {
    forall|k1: u64, k2: u64, v: u64|
        areas.contains_key(k1) && areas.contains_key(k2) && k1 != k2 ==> !(
        #[trigger] areas[k1].contains(v) && #[trigger] areas[k2].contains(v))
}

/// Whether some of the areas contains page `v`.
pub open spec fn covers(areas: Map<u64, MapArea>, v: u64) -> bool {
    exists|k: u64| areas.contains_key(k) && #[trigger] areas[k].contains(v)
}

/// Adding an area that shares no page with the areas that are there keeps
/// the areas apart: afterwards each of its pages lies in it and in no
/// other area, and every other page lies in an area exactly if it did
/// before. The areas are registered by their first page, and an area
/// that loses its place to the new one has no page.
pub proof fn lemma_added_area_keeps_apart(areas: Map<u64, MapArea>, area: MapArea)
    requires
        areas_disjoint(areas),
        forall|k: u64| #[trigger] areas.contains_key(k) ==> areas[k].start() == k,
        forall|k: u64, v: u64|
            areas.contains_key(k) && #[trigger] areas[k].contains(v) ==> !area.contains(v),
        areas.contains_key(area.start() as u64) ==> areas[area.start() as u64].range().len() == 0,
    ensures
        areas_disjoint(areas.insert(area.start() as u64, area)),
        forall|k: u64, v: u64|
            area.contains(v) && areas.insert(area.start() as u64, area).contains_key(k)
                && #[trigger] areas.insert(area.start() as u64, area)[k].contains(v) ==> k
                == area.start(),
        forall|v: u64|
            area.contains(v) ==> #[trigger] covers(areas.insert(area.start() as u64, area), v),
        forall|v: u64|
            !area.contains(v) ==> (#[trigger] covers(areas.insert(area.start() as u64, area), v)
                <==> covers(areas, v)),
{
    let key = area.start() as u64;
    let new = areas.insert(key, area);
    assert forall|k1: u64, k2: u64, v: u64|
        new.contains_key(k1) && new.contains_key(k2) && k1 != k2 implies !(
    #[trigger] new[k1].contains(v) && #[trigger] new[k2].contains(v)) by {
        if k1 != key && k2 != key {
            assert(areas.contains_key(k1) && areas.contains_key(k2));
        } else if k1 == key {
            if new[k2].contains(v) {
                assert(areas.contains_key(k2) && areas[k2].contains(v));
            }
        } else {
            if new[k1].contains(v) {
                assert(areas.contains_key(k1) && areas[k1].contains(v));
            }
        }
    }
    assert forall|k: u64, v: u64|
        area.contains(v) && new.contains_key(k) && #[trigger] new[k].contains(v) implies k
        == area.start() by {
        if k != key {
            assert(areas.contains_key(k) && areas[k].contains(v));
        }
    }
    assert forall|v: u64| area.contains(v) implies #[trigger] covers(new, v) by {
        assert(new.contains_key(key) && new[key].contains(v));
    }
    assert forall|v: u64| !area.contains(v) implies (#[trigger] covers(new, v) <==> covers(
        areas,
        v,
    )) by {
        if covers(new, v) {
            let k = choose|k: u64| new.contains_key(k) && #[trigger] new[k].contains(v);
            assert(k != key);
            assert(areas.contains_key(k) && areas[k].contains(v));
        }
        if covers(areas, v) {
            let k = choose|k: u64| areas.contains_key(k) && #[trigger] areas[k].contains(v);
            if k == key {
                assert(areas[key].range().len() == 0);
                assert(false);
            }
            assert(new.contains_key(k) && new[k].contains(v));
        }
    }
}

impl MemorySet {
    /// No page of a well-formed address space lies in two areas.
    pub proof fn lemma_one_area_per_page(&self, k1: u64, k2: u64, v: u64)
        requires
            self.inv(),
            self.areas().contains_key(k1),
            self.areas().contains_key(k2),
            self.areas()[k1].contains(v),
            self.areas()[k2].contains(v),
        ensures
            k1 == k2,
    {
    }

    /// Every page of an area of a well-formed address space is mapped with
    /// the permissions of the area, and to its own number if the area is
    /// identical.
    pub proof fn lemma_area_pages_mapped(&self, k: u64, v: u64)
        requires
            self.inv(),
            self.areas().contains_key(k),
            self.areas()[k].contains(v),
        ensures
            self@.contains_key(v),
            self@[v] == entry_for(self@[v].spec_ppn().0, self.areas()[k].perm()),
            self.areas()[k].map_type() == MapType::Identical ==> self@[v].spec_ppn().0 == v,
            self.areas()[k].map_type() == MapType::Framed ==> self.frames().contains_key(
                self@[v].spec_ppn().0,
            ),
    {
        assert(maps_page(self.table(), self.areas()[k].map_type(), self.areas()[k].perm(), v));
    }
}

} // verus!
