//! Building the address space of a user program from its ELF file.
//!
//! The file is checked as a whole first: every segment to be loaded must lie
//! in the file and in the address space, and no two areas of the resulting
//! layout may share a page. Only then are the areas mapped, so that loading
//! can afterwards fail for want of frames alone.

use vstd::prelude::*;
use crate::config::{TRAMPOLINE, TRAP_CONTEXT, USER_STACK_SIZE, VA_LIMIT, VPN_LIMIT};
use crate::mm::address::{VPNRange, VirtAddr, VirtPageNum};
use crate::mm::elf::{elf_image_of, read_elf, ElfImage, ElfImageView, ProgramHeader};
use crate::mm::flags::{MapPermission, FLAG_R, FLAG_U, FLAG_W, FLAG_X};
use crate::mm::frame_allocator::StackFrameAllocator;
use crate::mm::memory_set::{
    foreign, initial_bytes, trampoline_lacks, trampoline_vpn, trap_context_vpn, MapArea, MapType,
    MemorySet,
};
use crate::mm::page_table::{pte_bits, MemError, PageTableEntry};

verus! {

/// Why an ELF file could not be loaded.
#[derive(Clone, Copy, Debug, PartialEq, Eq, Structural)]
pub enum LoadError {
    /// The bytes are no ELF file that can be read, or a segment to be loaded
    /// leaves the file or the address space.
    BadElf,
    /// Two areas of the layout share a page or cannot both be registered, or
    /// a segment covers the trampoline page.
    Overlap,
    /// The frame allocator ran out of frames.
    OutOfFrames,
}

/// One area of the layout of a user program, with the part of the file that
/// its frames start with.
#[derive(Clone, Copy, Debug)]
pub struct Segment {
    pub area: MapArea,
    /// Whether the area has initial data at all.
    pub has_data: bool,
    /// Offset of the initial data in the file.
    pub offset: usize,
    /// Length of the initial data.
    pub size: usize,
}

impl Segment {
    /// The initial data of the area, taken from the file `file`.
    pub open spec fn data(&self, file: Seq<u8>) -> Option<Seq<u8>> {
        if self.has_data {
            Some(file.subrange(self.offset as int, self.offset + self.size))
        } else {
            None
        }
    }
}

/// First page of a segment: the page of its masked start address.
pub open spec fn seg_start(ph: ProgramHeader) -> int {
    ((ph.virtual_addr as int) % (VA_LIMIT as int)) / 4096
}

/// One past the last page of a segment: the first page at or after its masked end address.
pub open spec fn seg_end(ph: ProgramHeader) -> int {
    ((ph.virtual_addr + ph.mem_size) % (VA_LIMIT as int) + 4095) / 4096
}

/// The permissions of a segment: user access, and what its flags grant.
pub open spec fn seg_perm(ph: ProgramHeader) -> MapPermission {
    MapPermission {
        bits: (FLAG_U + (if ph.spec_is_read() {
            FLAG_R
        } else {
            0
        }) + (if ph.spec_is_write() {
            FLAG_W
        } else {
            0
        }) + (if ph.spec_is_execute() {
            FLAG_X
        } else {
            0
        })) as u16,
    }
}

/// Whether a segment can be loaded from a file of `len` bytes: its type is
/// known and, if it is to be loaded, neither its addresses nor its place in
/// the file overflow, it lies in the file, and it does not end before it starts.
pub open spec fn seg_ok(ph: ProgramHeader, len: int) -> bool {
    &&& ph.type_ok
    &&& ph.load ==> {
        &&& ph.virtual_addr + ph.mem_size <= u64::MAX
        &&& ph.offset + ph.file_size <= len
        &&& seg_start(ph) <= seg_end(ph)
    }
}

/// The area and data of a segment to be loaded.
pub open spec fn seg_plan(ph: ProgramHeader) -> Segment {
    Segment {
        area: MapArea {
            vpn_range: VPNRange {
                l: VirtPageNum(seg_start(ph) as u64),
                r: VirtPageNum(seg_end(ph) as u64),
            },
            map_type: MapType::Framed,
            map_perm: seg_perm(ph),
        },
        has_data: true,
        offset: ph.offset as usize,
        size: ph.file_size as usize,
    }
}

/// The areas of the segments to be loaded, in the order of the file.
pub open spec fn load_plan(segs: Seq<ProgramHeader>) -> Seq<Segment>
    decreases segs.len(),
{
    if segs.len() == 0 {
        Seq::empty()
    } else if segs.last().load {
        load_plan(segs.drop_last()).push(seg_plan(segs.last()))
    } else {
        load_plan(segs.drop_last())
    }
}

/// The largest end of an area of `plan`, or 0 if there is none.
pub open spec fn max_end(plan: Seq<Segment>) -> int
    decreases plan.len(),
{
    if plan.len() == 0 {
        0
    } else if plan.last().area.end() > max_end(plan.drop_last()) {
        plan.last().area.end()
    } else {
        max_end(plan.drop_last())
    }
}

/// An area without initial data.
pub open spec fn plain_segment(start: int, end: int, bits: u16) -> Segment {
    Segment {
        area: MapArea {
            vpn_range: VPNRange { l: VirtPageNum(start as u64), r: VirtPageNum(end as u64) },
            map_type: MapType::Framed,
            map_perm: MapPermission { bits },
        },
        has_data: false,
        offset: 0,
        size: 0,
    }
}

/// The user stack: the two pages below the trap-context page, readable and
/// writable from user mode.
pub open spec fn stack_segment() -> Segment {
    plain_segment(trap_context_vpn() - 2, trap_context_vpn() as int, 22)
}

/// The heap: an area without pages at `bottom`, readable and writable from user mode.
pub open spec fn heap_segment(bottom: int) -> Segment {
    plain_segment(bottom, bottom, 22)
}

/// The trap-context page, readable and writable by the kernel only.
pub open spec fn trap_context_segment() -> Segment {
    plain_segment(trap_context_vpn() as int, trampoline_vpn() as int, 6)
}

/// The whole layout of a user program: its segments, then the stack, the
/// heap above the last segment, and the trap-context page.
pub open spec fn full_plan(image: ElfImageView) -> Seq<Segment> {
    let loads = load_plan(image.segments);
    loads.push(stack_segment()).push(heap_segment(max_end(loads))).push(trap_context_segment())
}

/// Whether every segment of `image` can be loaded from a file of `len` bytes.
pub open spec fn image_ok(image: ElfImageView, len: int) -> bool {
    forall|i: int| 0 <= i < image.segments.len() ==> seg_ok(#[trigger] image.segments[i], len)
}

/// Whether area `b` can be added to an address space that holds area `a`:
/// they share no page, and if they start at the same page then `a` is empty.
pub open spec fn compatible(a: MapArea, b: MapArea) -> bool {
    &&& a.end() <= b.start() || b.end() <= a.start() || a.start() == a.end() || b.start()
        == b.end()
    &&& a.start() == b.start() ==> a.start() == a.end()
}

/// Whether the areas of `plan` can be added one after the other: each is
/// well formed and keeps off the trampoline page, and each is compatible
/// with those before it.
pub open spec fn layout_ok(plan: Seq<Segment>) -> bool {
    &&& forall|i: int|
        0 <= i < plan.len() ==> (#[trigger] plan[i]).area.wf() && !plan[i].area.contains(
            trampoline_vpn(),
        )
    &&& forall|i: int, j: int|
        0 <= i < j < plan.len() ==> compatible((#[trigger] plan[i]).area, (#[trigger] plan[j]).area)
}

/// The areas of `plan` by first page; of two areas with the same first page the later one.
pub open spec fn areas_of(plan: Seq<Segment>) -> Map<u64, MapArea>
    decreases plan.len(),
{
    if plan.len() == 0 {
        Map::empty()
    } else {
        areas_of(plan.drop_last()).insert(plan.last().area.start() as u64, plan.last().area)
    }
}

/// The frames that mapping the areas of `plan` takes, one area after the
/// other, where the walks lack `lacks` at first.
pub open spec fn plan_demand(lacks: Map<int, nat>, plan: Seq<Segment>) -> nat
    decreases plan.len(),
{
    if plan.len() == 0 {
        0
    } else {
        plan[0].area.demand(lacks) + plan_demand(plan[0].area.lacks_after(lacks), plan.drop_first())
    }
}

/// What the walks lack once the areas of `plan` are mapped, if they lacked
/// `lacks` before.
pub open spec fn lacks_after_plan(lacks: Map<int, nat>, plan: Seq<Segment>) -> Map<int, nat>
    decreases plan.len(),
{
    if plan.len() == 0 {
        lacks
    } else {
        lacks_after_plan(plan[0].area.lacks_after(lacks), plan.drop_first())
    }
}

/// The frames that the address space of the program `image` takes: the
/// root directory, the two directories on the walk to the trampoline, and
/// what its areas take.
pub open spec fn image_demand(image: ElfImageView) -> nat {
    3 + plan_demand(trampoline_lacks(), full_plan(image))
}

/// Every registered area is one of the plan.
pub proof fn lemma_areas_of_member(plan: Seq<Segment>, k: u64)
    requires
        areas_of(plan).contains_key(k),
    ensures
        exists|j: int|
            0 <= j < plan.len() && (#[trigger] plan[j]).area == areas_of(plan)[k] && plan[j].area.start()
                == k,
    decreases plan.len(),
{
    if plan.len() > 0 {
        let last = plan.last();
        if last.area.start() as u64 == k {
            assert(plan[plan.len() - 1].area == areas_of(plan)[k]);
        } else {
            lemma_areas_of_member(plan.drop_last(), k);
            let j = choose|j: int|
                0 <= j < plan.drop_last().len() && (#[trigger] plan.drop_last()[j]).area == areas_of(
                    plan.drop_last(),
                )[k] && plan.drop_last()[j].area.start() == k;
            assert(plan[j] == plan.drop_last()[j]);
        }
    }
}

fn segment_perm(ph: &ProgramHeader) -> (r: MapPermission)
    ensures
        r == seg_perm(*ph),
        r.wf(),
{
    let mut bits: u16 = FLAG_U;
    if ph.is_read() {
        bits = bits + FLAG_R;
    }
    if ph.is_write() {
        bits = bits + FLAG_W;
    }
    if ph.is_execute() {
        bits = bits + FLAG_X;
    }
    MapPermission { bits }
}

/// The areas of the segments of `image` that are to be loaded from a file
/// of `len` bytes; `None` exactly when some segment cannot be loaded.
pub fn plan_segments(image: &ElfImage, len: usize) -> (r: Option<Vec<Segment>>)
    ensures
        r.is_some() <==> image_ok(image@, len as int),
        r matches Some(plan) ==> plan@ == load_plan(image@.segments),
        r matches Some(plan) ==> forall|j: int|
            0 <= j < plan@.len() ==> (#[trigger] plan@[j]).offset + plan@[j].size <= len
                && plan@[j].has_data && plan@[j].area.map_type() == MapType::Framed
                && plan@[j].area.start() < VPN_LIMIT,
{
    let mut plan: Vec<Segment> = Vec::new();
    let mut i: usize = 0;
    while i < image.segments.len()
        invariant
            i <= image.segments@.len(),
            forall|j: int| 0 <= j < i ==> seg_ok(#[trigger] image.segments@[j], len as int),
            plan@ == load_plan(image.segments@.take(i as int)),
            forall|j: int|
                0 <= j < plan@.len() ==> (#[trigger] plan@[j]).offset + plan@[j].size <= len
                    && plan@[j].has_data && plan@[j].area.map_type() == MapType::Framed
                    && plan@[j].area.start() < VPN_LIMIT,
        decreases image.segments@.len() - i,
    {
        let ph = image.segments[i];
        proof {
            assert(image.segments@.take(i as int + 1).drop_last() =~= image.segments@.take(i as int));
            assert(image.segments@.take(i as int + 1).last() == ph);
        }
        if !ph.type_ok {
            assert(!seg_ok(image@.segments[i as int], len as int));
            return None;
        }
        if ph.load {
            if ph.mem_size > u64::MAX - ph.virtual_addr || ph.file_size > u64::MAX - ph.offset {
                assert(!seg_ok(image@.segments[i as int], len as int));
                return None;
            }
            if ph.offset + ph.file_size > len as u64 {
                assert(!seg_ok(image@.segments[i as int], len as int));
                return None;
            }
            let start_va = VirtAddr::from(ph.virtual_addr);
            let end_va = VirtAddr::from(ph.virtual_addr + ph.mem_size);
            if start_va.floor().0 > end_va.ceil().0 {
                assert(!seg_ok(image@.segments[i as int], len as int));
                return None;
            }
            let area = MapArea::new(start_va, end_va, MapType::Framed, segment_perm(&ph));
            let seg = Segment {
                area,
                has_data: true,
                offset: ph.offset as usize,
                size: ph.file_size as usize,
            };
            assert(seg == seg_plan(ph));
            plan.push(seg);
        }
        i += 1;
    }
    proof {
        assert(image.segments@.take(i as int) =~= image.segments@);
    }
    Some(plan)
}

fn areas_compatible(a: &MapArea, b: &MapArea) -> (r: bool)
    ensures
        r == compatible(*a, *b),
{
    let (al, ar): (u64, u64) = (a.get_start().0, a.get_end().0);
    let (bl, br): (u64, u64) = (b.get_start().0, b.get_end().0);
    (ar <= bl || br <= al || al == ar || bl == br) && (al != bl || al == ar)
}

/// Whether the areas of `plan` can be added one after the other.
pub fn check_layout(plan: &Vec<Segment>) -> (r: bool)
    ensures
        r == layout_ok(plan@),
{
    let mut j: usize = 0;
    while j < plan.len()
        invariant
            j <= plan@.len(),
            forall|i: int|
                0 <= i < j ==> (#[trigger] plan@[i]).area.wf() && !plan@[i].area.contains(
                    trampoline_vpn(),
                ),
            forall|i: int, k: int|
                0 <= i < k < j ==> compatible((#[trigger] plan@[i]).area, (#[trigger] plan@[k]).area),
        decreases plan@.len() - j,
    {
        let b = plan[j].area;
        let (bl, br): (u64, u64) = (b.get_start().0, b.get_end().0);
        if !(bl <= br && br <= VPN_LIMIT && b.get_perm().bits <= 511) {
            assert(!plan@[j as int].area.wf());
            return false;
        }
        if bl <= 0x7ff_ffff && 0x7ff_ffff < br {
            assert(plan@[j as int].area.contains(trampoline_vpn()));
            return false;
        }
        let mut i: usize = 0;
        while i < j
            invariant
                i <= j < plan@.len(),
                b == plan@[j as int].area,
                forall|k: int| 0 <= k < i ==> compatible((#[trigger] plan@[k]).area, b),
            decreases j - i,
        {
            let a = plan[i].area;
            if !areas_compatible(&a, &b) {
                assert(!compatible(plan@[i as int].area, plan@[j as int].area));
                return false;
            }
            i += 1;
        }
        j += 1;
    }
    true
}


fn max_end_of(plan: &Vec<Segment>) -> (r: u64)
    ensures
        r == max_end(plan@),
{
    let mut top: u64 = 0;
    let mut i: usize = 0;
    while i < plan.len()
        invariant
            i <= plan@.len(),
            top == max_end(plan@.take(i as int)),
        decreases plan@.len() - i,
    {
        proof {
            assert(plan@.take(i as int + 1).drop_last() =~= plan@.take(i as int));
            assert(plan@.take(i as int + 1).last() == plan@[i as int]);
        }
        let e = plan[i].area.get_end().0;
        if e > top {
            top = e;
        }
        i += 1;
    }
    proof {
        assert(plan@.take(i as int) =~= plan@);
    }
    top
}

proof fn lemma_max_end_attained(plan: Seq<Segment>)
    ensures
        max_end(plan) == 0 || exists|j: int|
            0 <= j < plan.len() && (#[trigger] plan[j]).area.end() == max_end(plan),
    decreases plan.len(),
{
    if plan.len() > 0 {
        lemma_max_end_attained(plan.drop_last());
        if plan.last().area.end() > max_end(plan.drop_last()) {
            assert(plan[plan.len() - 1].area.end() == max_end(plan));
        } else if max_end(plan) != 0 {
            let j = choose|j: int|
                0 <= j < plan.drop_last().len() && (#[trigger] plan.drop_last()[j]).area.end()
                    == max_end(plan.drop_last());
            assert(plan[j] == plan.drop_last()[j]);
        }
    }
}

/// The heap of a program with a sound layout is registered under the first
/// page above its segments, unless that page is the trap-context page.
pub proof fn lemma_heap_area_of(image: ElfImageView)
    requires
        layout_ok(full_plan(image)),
        max_end(load_plan(image.segments)) != trap_context_vpn(),
    ensures
        0 <= max_end(load_plan(image.segments)) <= VPN_LIMIT,
        areas_of(full_plan(image)).contains_key(max_end(load_plan(image.segments)) as u64),
        areas_of(full_plan(image))[max_end(load_plan(image.segments)) as u64] == heap_segment(
            max_end(load_plan(image.segments)),
        ).area,
{
    let loads = load_plan(image.segments);
    let top = max_end(loads);
    let p1 = loads.push(stack_segment());
    let p2 = p1.push(heap_segment(top));
    let p3 = p2.push(trap_context_segment());
    assert(p3 == full_plan(image));
    lemma_max_end_attained(loads);
    if top != 0 {
        let j = choose|j: int| 0 <= j < loads.len() && (#[trigger] loads[j]).area.end() == top;
        assert(p3[j] == loads[j]);
        assert(p3[j].area.wf());
    }
    assert(p3.drop_last() =~= p2);
    assert(p3.last() == trap_context_segment());
    assert(p2.drop_last() =~= p1);
    assert(p2.last() == heap_segment(top));
    assert(areas_of(p3) == areas_of(p2).insert(trap_context_vpn(), trap_context_segment().area));
    assert(areas_of(p2) == areas_of(p1).insert(top as u64, heap_segment(top).area));
}

/// An area of the plan that has a page is registered under its first page.
pub proof fn lemma_areas_of_nonempty(plan: Seq<Segment>, j: int)
    requires
        layout_ok(plan),
        0 <= j < plan.len(),
        plan[j].area.start() < plan[j].area.end(),
    ensures
        areas_of(plan).contains_key(plan[j].area.start() as u64),
        areas_of(plan)[plan[j].area.start() as u64] == plan[j].area,
    decreases plan.len(),
{
    let last = plan.last();
    if j == plan.len() - 1 {
    } else {
        assert(layout_ok(plan.drop_last())) by {
            assert forall|i: int| 0 <= i < plan.drop_last().len() implies (
            #[trigger] plan.drop_last()[i]).area.wf() && !plan.drop_last()[i].area.contains(
                trampoline_vpn(),
            ) by {
                assert(plan.drop_last()[i] == plan[i]);
            }
            assert forall|i: int, k: int| 0 <= i < k < plan.drop_last().len() implies compatible(
                (#[trigger] plan.drop_last()[i]).area,
                (#[trigger] plan.drop_last()[k]).area,
            ) by {
                assert(plan.drop_last()[i] == plan[i]);
                assert(plan.drop_last()[k] == plan[k]);
            }
        }
        assert(plan.drop_last()[j] == plan[j]);
        lemma_areas_of_nonempty(plan.drop_last(), j);
        assert(compatible(plan[j].area, plan[plan.len() - 1].area));
    }
}

/// Whether `ms` is the address space of the user program `image` with file
/// `file`: the trampoline mapped to the page of `strampoline`, the areas of
/// the layout registered, and each of their pages holding its initial bytes.
pub open spec fn is_image_of(
    ms: &MemorySet,
    image: ElfImageView,
    file: Seq<u8>,
    strampoline: u64,
) -> bool {
    let plan = full_plan(image);
    &&& ms.inv()
    &&& ms.has_trampoline()
    &&& ms@[trampoline_vpn()] == (PageTableEntry {
        bits: pte_bits(((strampoline % 0x100_0000_0000_0000) / 4096) as u64, 11),
    })
    &&& ms.areas() == areas_of(plan)
    &&& forall|j: int, v: u64|
        0 <= j < plan.len() && (#[trigger] plan[j]).area.contains(v) ==> #[trigger] ms.page_bytes(v)
            == initial_bytes(plan[j].data(file), v - plan[j].area.start())
    &&& ms@.contains_key(trap_context_vpn())
    &&& max_end(load_plan(image.segments)) < VPN_LIMIT
}

/// The bottom of the heap of the user program `image`: the address of the
/// first page above its segments.
pub open spec fn heap_bottom_of(image: ElfImageView) -> u64 {
    VirtAddr((max_end(load_plan(image.segments)) * 4096) as u64).spec_to_u64()
}

/// A prefix of a layout that can be added can be added too, and an area of
/// the prefix that has a page is registered under its first page.
pub proof fn lemma_areas_of_nonempty_take(plan: Seq<Segment>, i: int, j: int)
    requires
        layout_ok(plan),
        0 <= j < i <= plan.len(),
        plan[j].area.start() < plan[j].area.end(),
    ensures
        areas_of(plan.take(i)).contains_key(plan[j].area.start() as u64),
        areas_of(plan.take(i))[plan[j].area.start() as u64] == plan[j].area,
{
    let p = plan.take(i);
    assert(layout_ok(p)) by {
        assert forall|x: int| 0 <= x < p.len() implies (#[trigger] p[x]).area.wf()
            && !p[x].area.contains(trampoline_vpn()) by {
            assert(p[x] == plan[x]);
        }
        assert forall|x: int, y: int| 0 <= x < y < p.len() implies compatible(
            (#[trigger] p[x]).area,
            (#[trigger] p[y]).area,
        ) by {
            assert(p[x] == plan[x]);
            assert(p[y] == plan[y]);
        }
    }
    assert(p[j] == plan[j]);
    lemma_areas_of_nonempty(p, j);
}

impl MemorySet {
    /// Adds the areas of `plan` one after the other, each framed area with
    /// its part of `file` as initial data.
    pub fn push_plan(
        &mut self,
        allocator: &mut StackFrameAllocator,
        plan: &Vec<Segment>,
        file: &[u8],
    ) -> (r: Result<(), MemError>)
        requires
            old(self).inv(),
            old(allocator).wf(),
            old(self).accounted(old(allocator)),
            old(self).areas() == Map::<u64, MapArea>::empty(),
            layout_ok(plan@),
            forall|j: int|
                0 <= j < plan@.len() && (#[trigger] plan@[j]).has_data ==> plan@[j].area.map_type()
                    == MapType::Framed && plan@[j].offset + plan@[j].size <= file@.len(),
        ensures
            final(allocator).wf(),
            r.is_ok() <==> old(allocator).free_count() >= plan_demand(old(self).lacks(), plan@),
            r.is_ok() ==> {
                &&& final(allocator).free_count() == old(allocator).free_count() - plan_demand(
                    old(self).lacks(),
                    plan@,
                )
                &&& final(self).lacks() == lacks_after_plan(old(self).lacks(), plan@)
                &&& final(self).inv()
                &&& final(self).accounted(final(allocator))
                &&& final(self).table().root() == old(self).table().root()
                &&& foreign(final(self).table(), final(allocator)) == foreign(
                    old(self).table(),
                    old(allocator),
                )
                &&& final(self).areas() == areas_of(plan@)
                &&& forall|v: u64| #[trigger]
                    old(self)@.contains_key(v) ==> final(self)@.contains_key(v) && final(self)@[v]
                        == old(self)@[v]
                &&& forall|j: int, v: u64|
                    0 <= j < plan@.len() && #[trigger] plan@[j].area.contains(v) ==> final(self)@.contains_key(v) && (plan@[j].area.map_type() == MapType::Framed ==> final(self).page_bytes(v) == initial_bytes(
                        plan@[j].data(file@),
                        v - plan@[j].area.start(),
                    ))
                &&& (forall|j: int|
                    0 <= j < plan@.len() ==> (#[trigger] plan@[j]).area.map_type()
                        == MapType::Identical) ==> final(self).frames() == old(self).frames()
            },
    {
        let ghost a0 = *allocator;
        let ghost s0 = *self;
        let ghost whole = plan@;
        let file_len: usize = file.len();
        let mut i: usize = 0;
        let ghost total = plan_demand(s0.lacks(), whole);
        proof {
            assert(self.areas() =~= areas_of(whole.take(0)));
            assert(whole.skip(0) =~= whole);
        }
        while i < plan.len()
            invariant
                i <= plan@.len(),
                plan@ == whole,
                a0 == *old(allocator),
                s0 == *old(self),
                file@.len() == file_len,
                layout_ok(whole),
                forall|j: int|
                    0 <= j < whole.len() && (#[trigger] whole[j]).has_data ==> whole[j].area.map_type()
                        == MapType::Framed && whole[j].offset + whole[j].size <= file@.len(),
                allocator.wf(),
                self.inv(),
                self.accounted(allocator),
                self.table().root() == s0.table().root(),
                foreign(self.table(), allocator) == foreign(s0.table(), &a0),
                self.areas() == areas_of(whole.take(i as int)),
                forall|v: u64| #[trigger]
                    s0@.contains_key(v) ==> self@.contains_key(v) && self@[v] == s0@[v],
                forall|j: int, v: u64|
                    0 <= j < i && #[trigger] whole[j].area.contains(v) ==> self@.contains_key(v) && (
                    whole[j].area.map_type() == MapType::Framed ==> self.page_bytes(v)
                        == initial_bytes(whole[j].data(file@), v - whole[j].area.start())),
                total == plan_demand(s0.lacks(), whole),
                allocator.free_count() + total == a0.free_count() + plan_demand(
                    self.lacks(),
                    whole.skip(i as int),
                ),
                lacks_after_plan(self.lacks(), whole.skip(i as int)) == lacks_after_plan(
                    s0.lacks(),
                    whole,
                ),
                (forall|j: int|
                    0 <= j < whole.len() ==> (#[trigger] whole[j]).area.map_type()
                        == MapType::Identical) ==> self.frames() == s0.frames(),
            decreases plan@.len() - i,
        {
            let seg = plan[i];
            let ghost s1 = *self;
            proof {
                assert(whole.skip(i as int)[0] == seg);
                assert(whole.skip(i as int).drop_first() =~= whole.skip(i + 1));
                assert(whole.take(i as int + 1).drop_last() =~= whole.take(i as int));
                assert(whole.take(i as int + 1).last() == seg);
                let done = whole.take(i as int);
                assert forall|v: u64| seg.area.contains(v) implies !(#[trigger] self@.contains_key(
                    v,
                )) by {
                    if self@.contains_key(v) {
                        assert(self.covered(v));
                        let k = choose|k: u64|
                            self.areas().contains_key(k) && #[trigger] self.areas()[k].contains(v);
                        lemma_areas_of_member(done, k);
                        let j = choose|j: int|
                            0 <= j < done.len() && (#[trigger] done[j]).area == areas_of(done)[k]
                                && done[j].area.start() == k;
                        assert(done[j] == whole[j]);
                        assert(compatible(whole[j].area, whole[i as int].area));
                    }
                }
                if self.areas().contains_key(seg.area.start() as u64) {
                    let k = seg.area.start() as u64;
                    lemma_areas_of_member(done, k);
                    let j = choose|j: int|
                        0 <= j < done.len() && (#[trigger] done[j]).area == areas_of(done)[k]
                            && done[j].area.start() == k;
                    assert(done[j] == whole[j]);
                    assert(compatible(whole[j].area, whole[i as int].area));
                }
            }
            let pushed = if seg.has_data {
                let data = vstd::slice::slice_subrange(file, seg.offset, seg.offset + seg.size);
                self.push(allocator, seg.area, Some(data))
            } else {
                self.push(allocator, seg.area, None)
            };
            match pushed {
                Ok(()) => {},
                Err(e) => {
                    return Err(e);
                },
            }
            proof {
                assert forall|v: u64| #[trigger] s0@.contains_key(v) implies self@.contains_key(v)
                    && self@[v] == s0@[v] by {
                    assert(s1@.contains_key(v));
                    assert(!seg.area.contains(v));
                }
                assert forall|j: int, v: u64|
                    0 <= j < i + 1 && #[trigger] whole[j].area.contains(v) implies self@.contains_key(v)
                    && (whole[j].area.map_type() == MapType::Framed ==> self.page_bytes(v)
                    == initial_bytes(whole[j].data(file@), v - whole[j].area.start())) by {
                    if j < i {
                        assert(compatible(whole[j].area, whole[i as int].area));
                        assert(!seg.area.contains(v));
                        assert(s1@.contains_key(v));
                        if whole[j].area.map_type() == MapType::Framed {
                            assert(s1.page_bytes(v) == initial_bytes(
                                whole[j].data(file@),
                                v - whole[j].area.start(),
                            ));
                            lemma_areas_of_nonempty_take(whole, i as int, j);
                            assert(s1.areas()[whole[j].area.start() as u64].contains(v));
                            assert(s1.frames().contains_key(s1@[v].spec_ppn().0));
                        }
                    } else {
                        assert(self.areas().contains_key(seg.area.start() as u64));
                        assert(self.areas()[seg.area.start() as u64].contains(v));
                    }
                }
            }
            i += 1;
        }
        proof {
            assert(whole.take(whole.len() as int) =~= whole);
            assert(whole.skip(whole.len() as int).len() == 0);
        }
        Ok(())
    }

    /// The address space of the user program `image`, whose file is `file`:
    /// the trampoline, each segment to be loaded with its part of the file,
    /// the user stack, an empty heap above the last segment and the
    /// trap-context page. Returns the address space with the top of the user
    /// stack, the bottom of the heap and the entry point.
    pub fn from_image(
        allocator: &mut StackFrameAllocator,
        image: &ElfImage,
        file: &[u8],
        strampoline: u64,
    ) -> (r: Result<(MemorySet, u64, u64, u64), LoadError>)
        requires
            old(allocator).wf(),
        ensures
            final(allocator).wf(),
            !image_ok(image@, file@.len() as int) ==> r == Err::<(MemorySet, u64, u64, u64), LoadError>(
                LoadError::BadElf,
            ),
            image_ok(image@, file@.len() as int) && !layout_ok(full_plan(image@)) ==> r == Err::<
                (MemorySet, u64, u64, u64),
                LoadError,
            >(LoadError::Overlap),
            image_ok(image@, file@.len() as int) && layout_ok(full_plan(image@)) ==> (r.is_ok() || r
                == Err::<(MemorySet, u64, u64, u64), LoadError>(LoadError::OutOfFrames)),
            image_ok(image@, file@.len() as int) && layout_ok(full_plan(image@)) ==> (r.is_ok()
                <==> old(allocator).free_count() >= image_demand(image@)),
            r.is_ok() ==> final(allocator).free_count() == old(allocator).free_count()
                - image_demand(image@),
            (r == Err::<(MemorySet, u64, u64, u64), LoadError>(LoadError::BadElf) || r == Err::<
                (MemorySet, u64, u64, u64),
                LoadError,
            >(LoadError::Overlap)) ==> *final(allocator) == *old(allocator),
            r matches Ok((ms, user_sp, heap_bottom, entry)) ==> {
                &&& is_image_of(&ms, image@, file@, strampoline)
                &&& ms.accounted(final(allocator))
                &&& foreign(ms.table(), final(allocator)) == old(allocator).allocated()
                &&& user_sp == TRAP_CONTEXT
                &&& heap_bottom == heap_bottom_of(image@)
                &&& entry == image@.entry_point
            },
    {
        let ghost a0 = *allocator;
        let mut plan = match plan_segments(image, file.len()) {
            Some(plan) => plan,
            None => {
                return Err(LoadError::BadElf);
            },
        };
        let top = max_end_of(&plan);
        let user_rw = MapPermission { bits: FLAG_R + FLAG_W + FLAG_U };
        let kernel_rw = MapPermission { bits: FLAG_R + FLAG_W };
        let stack = MapArea::new(
            VirtAddr::from(TRAP_CONTEXT - USER_STACK_SIZE),
            VirtAddr::from(TRAP_CONTEXT),
            MapType::Framed,
            user_rw,
        );
        let trap_cx = MapArea::new(
            VirtAddr::from(TRAP_CONTEXT),
            VirtAddr::from(TRAMPOLINE),
            MapType::Framed,
            kernel_rw,
        );
        plan.push(Segment { area: stack, has_data: false, offset: 0, size: 0 });
        plan.push(
            Segment {
                area: MapArea {
                    vpn_range: VPNRange { l: VirtPageNum(top), r: VirtPageNum(top) },
                    map_type: MapType::Framed,
                    map_perm: user_rw,
                },
                has_data: false,
                offset: 0,
                size: 0,
            },
        );
        plan.push(Segment { area: trap_cx, has_data: false, offset: 0, size: 0 });
        let ghost loads = load_plan(image@.segments);
        proof {
            assert(plan@ =~= full_plan(image@));
            assert forall|j: int| 0 <= j < plan@.len() implies (#[trigger] plan@[j]).area.map_type()
                == MapType::Framed && (plan@[j].has_data ==> plan@[j].offset + plan@[j].size
                <= file@.len()) by {
                if j < loads.len() {
                    assert(plan@[j] == loads[j]);
                }
            }
        }
        let ghost framed = forall|j: int|
            0 <= j < plan@.len() ==> (#[trigger] plan@[j]).area.map_type() == MapType::Framed;
        assert(framed);
        if !check_layout(&plan) {
            return Err(LoadError::Overlap);
        }
        proof {
            lemma_max_end_attained(loads);
            if top != 0 {
                let j = choose|j: int|
                    0 <= j < loads.len() && (#[trigger] loads[j]).area.end() == max_end(loads);
                assert(plan@[j] == loads[j]);
                assert(plan@[j].area.wf() && !plan@[j].area.contains(trampoline_vpn()));
            }
            assert(top < VPN_LIMIT);
        }
        let mut ms = match MemorySet::new_bare(allocator) {
            Ok(ms) => ms,
            Err(_) => {
                return Err(LoadError::OutOfFrames);
            },
        };
        proof {
            assert(ms.lacks()[trampoline_vpn() as int] == ms.table().missing_tables(
                VirtPageNum(trampoline_vpn()),
            ));
        }
        match ms.map_trampoline(allocator, strampoline) {
            Ok(()) => {},
            Err(_) => {
                return Err(LoadError::OutOfFrames);
            },
        }
        let ghost before = ms;
        match ms.push_plan(allocator, &plan, file) {
            Ok(()) => {},
            Err(_) => {
                return Err(LoadError::OutOfFrames);
            },
        }
        proof {
            let whole = plan@;
            let last = whole.len() - 1;
            assert(whole[last] == trap_context_segment());
            assert(whole[last].area.contains(trap_context_vpn()));
            assert(before@.contains_key(trampoline_vpn()));
        }
        let heap_bottom = VirtPageNum(top).addr().to_u64();
        Ok((ms, TRAP_CONTEXT, heap_bottom, image.entry_point))
    }

    /// The address space of the user program whose ELF file is `elf_data`;
    /// see [`MemorySet::from_image`].
    pub fn from_elf(allocator: &mut StackFrameAllocator, elf_data: &[u8], strampoline: u64) -> (r:
        Result<(MemorySet, u64, u64, u64), LoadError>)
        requires
            old(allocator).wf(),
        ensures
            final(allocator).wf(),
            elf_image_of(elf_data@).is_none() ==> r == Err::<(MemorySet, u64, u64, u64), LoadError>(
                LoadError::BadElf,
            ),
            elf_image_of(elf_data@) matches Some(image) ==> {
                &&& !image_ok(image, elf_data@.len() as int) ==> r == Err::<
                    (MemorySet, u64, u64, u64),
                    LoadError,
                >(LoadError::BadElf)
                &&& image_ok(image, elf_data@.len() as int) && !layout_ok(full_plan(image)) ==> r
                    == Err::<(MemorySet, u64, u64, u64), LoadError>(LoadError::Overlap)
                &&& image_ok(image, elf_data@.len() as int) && layout_ok(full_plan(image)) ==> (
                r.is_ok() || r == Err::<(MemorySet, u64, u64, u64), LoadError>(
                    LoadError::OutOfFrames,
                ))
                &&& image_ok(image, elf_data@.len() as int) && layout_ok(full_plan(image)) ==> (
                r.is_ok() <==> old(allocator).free_count() >= image_demand(image))
                &&& r.is_ok() ==> final(allocator).free_count() == old(allocator).free_count()
                    - image_demand(image)
                &&& r matches Ok((ms, user_sp, heap_bottom, entry)) ==> {
                    &&& is_image_of(&ms, image, elf_data@, strampoline)
                    &&& ms.accounted(final(allocator))
                    &&& foreign(ms.table(), final(allocator)) == old(allocator).allocated()
                    &&& user_sp == TRAP_CONTEXT
                    &&& heap_bottom == heap_bottom_of(image)
                    &&& entry == image.entry_point
                }
            },
            (r == Err::<(MemorySet, u64, u64, u64), LoadError>(LoadError::BadElf) || r == Err::<
                (MemorySet, u64, u64, u64),
                LoadError,
            >(LoadError::Overlap)) ==> *final(allocator) == *old(allocator),
            r.is_ok() ==> elf_image_of(elf_data@).is_some(),
    {
        let image = match read_elf(elf_data) {
            Some(image) => image,
            None => {
                return Err(LoadError::BadElf);
            },
        };
        Self::from_image(allocator, &image, elf_data, strampoline)
    }
}


/// Whether the ELF file `elf_data` can be loaded, frames permitting: `Ok`
/// if so, else why not.
pub fn check_elf(elf_data: &[u8]) -> (r: Result<(), LoadError>)
    ensures
        r == (match elf_image_of(elf_data@) {
            None => Err::<(), LoadError>(LoadError::BadElf),
            Some(image) => if !image_ok(image, elf_data@.len() as int) {
                Err::<(), LoadError>(LoadError::BadElf)
            } else if !layout_ok(full_plan(image)) {
                Err::<(), LoadError>(LoadError::Overlap)
            } else {
                Ok::<(), LoadError>(())
            },
        }),
{
    let image = match read_elf(elf_data) {
        Some(image) => image,
        None => {
            return Err(LoadError::BadElf);
        },
    };
    let mut plan = match plan_segments(&image, elf_data.len()) {
        Some(plan) => plan,
        None => {
            return Err(LoadError::BadElf);
        },
    };
    let top = max_end_of(&plan);
    plan.push(
        Segment {
            area: MapArea {
                vpn_range: VPNRange { l: VirtPageNum(0x7ff_fffc), r: VirtPageNum(0x7ff_fffe) },
                map_type: MapType::Framed,
                map_perm: MapPermission { bits: FLAG_R + FLAG_W + FLAG_U },
            },
            has_data: false,
            offset: 0,
            size: 0,
        },
    );
    plan.push(
        Segment {
            area: MapArea {
                vpn_range: VPNRange { l: VirtPageNum(top), r: VirtPageNum(top) },
                map_type: MapType::Framed,
                map_perm: MapPermission { bits: FLAG_R + FLAG_W + FLAG_U },
            },
            has_data: false,
            offset: 0,
            size: 0,
        },
    );
    plan.push(
        Segment {
            area: MapArea {
                vpn_range: VPNRange { l: VirtPageNum(0x7ff_fffe), r: VirtPageNum(0x7ff_ffff) },
                map_type: MapType::Framed,
                map_perm: MapPermission { bits: FLAG_R + FLAG_W },
            },
            has_data: false,
            offset: 0,
            size: 0,
        },
    );
    proof {
        assert(plan@ =~= full_plan(image@));
    }
    if !check_layout(&plan) {
        return Err(LoadError::Overlap);
    }
    Ok(())
}

} // verus!
