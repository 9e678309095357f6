//! The address space of the kernel itself: the sections of its image and all
//! of free physical memory mapped to themselves, and the trampoline.

use vstd::prelude::*;
use crate::config::{MEMORY_END, PAGE_SIZE, TRAP_CONTEXT, VA_LIMIT};
use crate::mm::address::{VPNRange, VirtAddr, VirtPageNum};
use crate::mm::flags::{MapPermission, FLAG_R, FLAG_W, FLAG_X};
use crate::mm::frame_allocator::StackFrameAllocator;
use crate::mm::demand::{frames_needed, lacks_after, tables_needed};
use crate::mm::memory_set::{
    foreign, trampoline_lacks, trampoline_vpn, trap_context_vpn, MapArea, MapType, MemorySet,
};
use crate::mm::page_table::{pte_bits, MemError, PageTableEntry};
use crate::mm::user_space::{
    areas_of, check_layout, lacks_after_plan, layout_ok, plan_demand, Segment,
};
use crate::vars::KernelLayout;

verus! {

/// The area of the pages that hold any byte of `[start, end)`, mapped to themselves.
pub open spec fn identical_segment(start: u64, end: u64, bits: u16) -> Segment {
    Segment {
        area: MapArea {
            vpn_range: VPNRange {
                l: VirtPageNum((start % VA_LIMIT) / 4096),
                r: VirtPageNum(((end % VA_LIMIT + 4095) / 4096) as u64),
            },
            map_type: MapType::Identical,
            map_perm: MapPermission { bits },
        },
        has_data: false,
        offset: 0,
        size: 0,
    }
}

/// The areas of the kernel: `.text` readable and executable, `.rodata`
/// readable, `.data` and `.bss` readable and writable, and physical memory
/// from the end of the image on readable and writable.
pub open spec fn kernel_plan(layout: KernelLayout) -> Seq<Segment> {
    seq![
        identical_segment(layout.stext, layout.etext, 10),
        identical_segment(layout.srodata, layout.erodata, 2),
        identical_segment(layout.sdata, layout.edata, 6),
        identical_segment(layout.sbss_with_stack, layout.ebss, 6),
        identical_segment(layout.ekernel, MEMORY_END, 6),
    ]
}

fn identical(start: u64, end: u64, bits: u16) -> (r: Segment)
    ensures
        r == identical_segment(start, end, bits),
{
    Segment {
        area: MapArea {
            vpn_range: VPNRange { l: VirtAddr::from(start).floor(), r: VirtAddr::from(end).ceil() },
            map_type: MapType::Identical,
            map_perm: MapPermission { bits },
        },
        has_data: false,
        offset: 0,
        size: 0,
    }
}

impl KernelLayout {
    /// Whether the sections can be mapped one after the other: each ends
    /// at or after its start, and no two of them share a page.
    pub open spec fn wf(&self) -> bool {
        &&& layout_ok(kernel_plan(*self))
        &&& self.in_memory()
    }

    /// Whether every section lies in physical memory.
    pub open spec fn in_memory(&self) -> bool {
        &&& self.stext <= MEMORY_END && self.etext <= MEMORY_END
        &&& self.srodata <= MEMORY_END && self.erodata <= MEMORY_END
        &&& self.sdata <= MEMORY_END && self.edata <= MEMORY_END
        &&& self.sbss_with_stack <= MEMORY_END && self.ebss <= MEMORY_END
        &&& self.ekernel <= MEMORY_END
    }

    /// The areas of the kernel for this layout.
    pub fn plan(&self) -> (r: Vec<Segment>)
        ensures
            r@ == kernel_plan(*self),
    {
        let mut plan: Vec<Segment> = Vec::new();
        plan.push(identical(self.stext, self.etext, FLAG_R + FLAG_X));
        plan.push(identical(self.srodata, self.erodata, FLAG_R));
        plan.push(identical(self.sdata, self.edata, FLAG_R + FLAG_W));
        plan.push(identical(self.sbss_with_stack, self.ebss, FLAG_R + FLAG_W));
        plan.push(identical(self.ekernel, MEMORY_END, FLAG_R + FLAG_W));
        assert(plan@ =~= kernel_plan(*self));
        plan
    }

    pub fn check(&self) -> (r: bool)
        ensures
            r == self.wf(),
    {
        let plan = self.plan();
        check_layout(&plan) && self.stext <= MEMORY_END && self.etext <= MEMORY_END && self.srodata
            <= MEMORY_END && self.erodata <= MEMORY_END && self.sdata <= MEMORY_END && self.edata
            <= MEMORY_END && self.sbss_with_stack <= MEMORY_END && self.ebss <= MEMORY_END
            && self.ekernel <= MEMORY_END
    }
}

/// The frames that the address space of the kernel takes: the root
/// directory, the two directories on the walk to the trampoline, and the
/// directories for the sections and the memory behind them.
pub open spec fn kernel_demand(layout: KernelLayout) -> nat {
    3 + plan_demand(trampoline_lacks(), kernel_plan(layout))
}

impl MemorySet {
    /// The address space of the kernel for `layout`: the trampoline and the
    /// sections of the image, without any kernel stack. Fails exactly when
    /// the allocator has fewer frames than that takes.
    pub fn new_kernel(allocator: &mut StackFrameAllocator, layout: &KernelLayout) -> (r: Result<
        MemorySet,
        MemError,
    >)
        requires
            old(allocator).wf(),
            layout.wf(),
        ensures
            final(allocator).wf(),
            r.is_ok() <==> old(allocator).free_count() >= kernel_demand(*layout),
            r matches Ok(ms) ==> {
                &&& final(allocator).free_count() == old(allocator).free_count() - kernel_demand(
                    *layout,
                )
                &&& ms.lacks() == lacks_after_plan(trampoline_lacks(), kernel_plan(*layout))
                &&& ms.inv()
                &&& ms.accounted(final(allocator))
                &&& foreign(ms.table(), final(allocator)) == old(allocator).allocated()
                &&& ms.frames() == Map::<u64, Seq<u8>>::empty()
                &&& ms.has_trampoline()
                &&& ms@[trampoline_vpn()] == (PageTableEntry {
                    bits: pte_bits(((layout.strampoline % 0x100_0000_0000_0000) / 4096) as u64, 11),
                })
                &&& ms.areas() == areas_of(kernel_plan(*layout))
                &&& forall|j: int, v: u64|
                    0 <= j < 5 && #[trigger] kernel_plan(*layout)[j].area.contains(v)
                        ==> ms@.contains_key(v)
                &&& forall|v: u64|
                    MEMORY_END / 4096 <= v && v != trampoline_vpn() ==> !(#[trigger] ms@.contains_key(v))
                &&& forall|k: u64| MEMORY_END / 4096 < k ==> !(#[trigger] ms.areas().contains_key(k))
            },
    {
        let mut ms = match MemorySet::new_bare(allocator) {
            Ok(ms) => ms,
            Err(e) => {
                return Err(e);
            },
        };
        proof {
            assert(ms.lacks()[trampoline_vpn() as int] == ms.table().missing_tables(
                VirtPageNum(trampoline_vpn()),
            ));
        }
        match ms.map_trampoline(allocator, layout.strampoline) {
            Ok(()) => {},
            Err(e) => {
                return Err(e);
            },
        }
        let ghost before = ms;
        let plan = layout.plan();
        let none: Vec<u8> = Vec::new();
        match ms.push_plan(allocator, &plan, none.as_slice()) {
            Ok(()) => {},
            Err(e) => {
                return Err(e);
            },
        }
        proof {
            assert(before@.contains_key(trampoline_vpn()));
            let plan = kernel_plan(*layout);
            assert forall|k: u64| MEMORY_END / 4096 < k implies !(#[trigger] ms.areas().contains_key(
                k,
            )) by {
                if ms.areas().contains_key(k) {
                    crate::mm::user_space::lemma_areas_of_member(plan, k);
                    let j = choose|j: int|
                        0 <= j < plan.len() && (#[trigger] plan[j]).area == areas_of(plan)[k]
                            && plan[j].area.start() == k;
                    assert(plan[j].area.start() <= MEMORY_END / 4096);
                }
            }
            assert forall|v: u64| MEMORY_END / 4096 <= v && v != trampoline_vpn() implies !(
            #[trigger] ms@.contains_key(v)) by {
                if ms@.contains_key(v) {
                    assert(ms.covered(v));
                    let k = choose|k: u64| ms.areas().contains_key(k) && #[trigger] ms.areas()[k].contains(v);
                    crate::mm::user_space::lemma_areas_of_member(plan, k);
                    let j = choose|j: int|
                        0 <= j < plan.len() && (#[trigger] plan[j]).area == areas_of(plan)[k]
                            && plan[j].area.start() == k;
                    assert(plan[j].area.end() <= MEMORY_END / 4096);
                }
            }
        }
        Ok(ms)
    }
}

/// Whether the kernel's own sections are protected as they should be: the
/// middle of `.text` and of `.rodata` mapped and not writable, the middle of
/// `.data` mapped and not executable.
pub open spec fn sections_protected(ms: &MemorySet, layout: KernelLayout) -> bool {
    let text = (((layout.stext + layout.etext) / 2) % (VA_LIMIT as int) / 4096) as u64;
    let rodata = (((layout.srodata + layout.erodata) / 2) % (VA_LIMIT as int) / 4096) as u64;
    let data = (((layout.sdata + layout.edata) / 2) % (VA_LIMIT as int) / 4096) as u64;
    &&& ms@.contains_key(text) && !ms@[text].has(FLAG_W)
    &&& ms@.contains_key(rodata) && !ms@[rodata].has(FLAG_W)
    &&& ms@.contains_key(data) && !ms@[data].has(FLAG_X)
}

fn middle(a: u64, b: u64) -> (r: VirtPageNum)
    ensures
        r.0 == ((a + b) / 2) % (VA_LIMIT as int) / 4096,
        r.wf(),
{
    let mid: u64 = a / 2 + b / 2 + (a % 2 + b % 2) / 2;
    VirtAddr::from(mid).floor()
}

/// Checks the protection of the kernel's sections, then maps the page below
/// the trap-context page readable, checks that it is, and unmaps it again.
/// Returns whether all of that held.
pub fn remap_test(
    kernel_space: &mut MemorySet,
    allocator: &mut StackFrameAllocator,
    layout: &KernelLayout,
) -> (r: Result<bool, MemError>)
    requires
        old(kernel_space).inv(),
        old(allocator).wf(),
        old(kernel_space).accounted(old(allocator)),
        !old(kernel_space)@.contains_key((trap_context_vpn() - 1) as u64),
    ensures
        final(allocator).wf(),
        r.is_ok() <==> old(allocator).free_count() >= frames_needed(
            old(kernel_space).lacks(),
            true,
            trap_context_vpn() - 1,
            trap_context_vpn() as int,
        ),
        r matches Ok(passed) ==> {
            &&& passed == sections_protected(old(kernel_space), *layout)
            &&& final(allocator).free_count() == old(allocator).free_count() - tables_needed(
                old(kernel_space).lacks(),
                trap_context_vpn() - 1,
                trap_context_vpn() as int,
            )
            &&& final(kernel_space).lacks() == lacks_after(
                old(kernel_space).lacks(),
                trap_context_vpn() - 1,
                trap_context_vpn() as int,
            )
            &&& final(kernel_space).inv()
            &&& final(kernel_space).accounted(final(allocator))
            &&& foreign(final(kernel_space).table(), final(allocator)) == foreign(
                old(kernel_space).table(),
                old(allocator),
            )
            &&& final(kernel_space)@ == old(kernel_space)@
            &&& final(kernel_space).frames() == old(kernel_space).frames()
            &&& final(kernel_space).areas() == old(kernel_space).areas().remove(
                (trap_context_vpn() - 1) as u64,
            )
        },
{
    let ghost s0 = *kernel_space;
    let text = kernel_space.translate(middle(layout.stext, layout.etext));
    let rodata = kernel_space.translate(middle(layout.srodata, layout.erodata));
    let data = kernel_space.translate(middle(layout.sdata, layout.edata));
    let mut passed = match (text, rodata, data) {
        (Some(t), Some(r), Some(d)) => !t.is_writable() && !r.is_writable() && !d.is_executable(),
        _ => false,
    };
    let bottom = VirtAddr::from(TRAP_CONTEXT - PAGE_SIZE);
    let top = VirtAddr::from(TRAP_CONTEXT);
    proof {
        if s0.areas().contains_key(bottom.0 / 4096) {
            let a = s0.areas()[bottom.0 / 4096];
            if a.start() < a.end() {
                assert(a.contains(bottom.0 / 4096));
            }
        }
    }
    match kernel_space.insert_framed_area(allocator, bottom, top, MapPermission { bits: FLAG_R }) {
        Ok(()) => {},
        Err(e) => {
            return Err(e);
        },
    }
    let ghost s1 = *kernel_space;
    let scratch = bottom.floor();
    proof {
        assert(s1.areas()[scratch.0].contains(scratch.0));
        crate::mm::page_table::lemma_pte_basics(s1@[scratch.0].bits);
        crate::mm::page_table::lemma_pte_has(s1@[scratch.0].spec_ppn().0, 3, FLAG_R);
        assert(3u16 & 2u16 == 2u16) by (bit_vector);
        assert(2u16 | 1u16 == 3u16) by (bit_vector);
        s1.table().lemma_inv_facts();
    }
    match kernel_space.translate(scratch) {
        Some(e) => {
            if !e.is_readable() {
                passed = false;
            }
        },
        None => {
            passed = false;
        },
    }
    kernel_space.remove_area_with_start_vpn(allocator, scratch);
    if kernel_space.translate(scratch).is_some() {
        passed = false;
    }
    proof {
        let k = scratch.0;
        let a = s1.areas()[k];
        assert(kernel_space.areas() =~= s0.areas().remove(k));
        assert(kernel_space@ =~= s0@) by {
            assert forall|v: u64| kernel_space@.contains_key(v) == s0@.contains_key(v) by {
                if v != k {
                    assert(!a.contains(v));
                    assert(s1@.contains_key(v) == s0@.contains_key(v));
                    assert(kernel_space.table()@.contains_key(v) == s1.table()@.contains_key(v));
                } else {
                    assert(!kernel_space.table()@.contains_key(v));
                }
            }
            assert forall|v: u64| s0@.contains_key(v) implies kernel_space@[v] == s0@[v] by {
                assert(v != k);
                assert(!a.contains(v));
                assert(s1@[v] == s0@[v]);
                assert(s1.table()@.contains_key(v));
                assert(kernel_space.table()@[v] == s1.table()@[v]);
            }
        }
        assert(kernel_space.frames() =~= s0.frames()) by {
            let p = s1@[k].spec_ppn().0;
            assert(!s0.frames().contains_key(p));
            assert forall|q: u64|
                crate::mm::memory_set::frame_image(s1.table(), a.start(), a.end()).contains(q) == (q
                    == p) by {
                if crate::mm::memory_set::frame_image(s1.table(), a.start(), a.end()).contains(q) {
                    let v = choose|v: u64|
                        a.start() <= v < a.end() && s1.table()@.contains_key(v) && (
                        #[trigger] s1.table()@[v]).spec_ppn().0 == q;
                    assert(v == k);
                }
                if q == p {
                    assert(a.start() <= k < a.end() && s1.table()@.contains_key(k) && s1.table()@[k].spec_ppn().0
                        == q);
                }
            }
            assert(kernel_space.frames().dom() =~= s0.frames().dom());
            assert forall|q: u64| s0.frames().contains_key(q) implies kernel_space.frames()[q]
                == s0.frames()[q] by {
                assert(kernel_space.frames().contains_key(q));
                assert(s1.frames().contains_key(q) && s1.frames()[q] == s0.frames()[q]);
            }
        }
    }
    Ok(passed)
}

} // verus!
