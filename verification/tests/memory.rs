use sv39_kernel::config::{MEMORY_END, PAGE_SIZE, TRAMPOLINE, TRAP_CONTEXT};
use sv39_kernel::mm::address::{PhysAddr, PhysPageNum, VPNRange, VirtAddr, VirtPageNum};
use sv39_kernel::mm::flags::{MapPermission, PTEFlags, FLAG_R, FLAG_U, FLAG_V, FLAG_W, FLAG_X};
use sv39_kernel::mm::frame_allocator::{
    frame_alloc, frame_allocator_test, frame_dealloc, init_frame_allocator, FrameTracker,
    FrameTrackerMarker, StackFrameAllocator,
};
use sv39_kernel::mm::kernel_space::remap_test;
use sv39_kernel::mm::memory_set::{translated_copyout, MapArea, MapType, MemorySet};
use sv39_kernel::mm::page_table::{
    translate_str, translated_byte_buffer, MapArgs, MemError, PageTable, PageTableEntry, UnmapArgs,
};
use sv39_kernel::vars::KernelLayout;

fn allocator(first: u64, last: u64) -> StackFrameAllocator {
    let mut a = StackFrameAllocator::new();
    a.init(PhysPageNum(first), PhysPageNum(last));
    a
}

fn layout() -> KernelLayout {
    KernelLayout {
        stext: 0x8020_0000,
        etext: 0x8021_0000,
        srodata: 0x8021_0000,
        erodata: 0x8021_8000,
        sdata: 0x8021_8000,
        edata: 0x8022_0000,
        sbss_with_stack: 0x8022_0000,
        ebss: 0x8023_0000,
        ekernel: 0x8023_0000,
        strampoline: 0x8020_1000,
    }
}

#[test]
fn addresses_round_to_pages() {
    assert_eq!(VirtAddr::from(0x1234).floor(), VirtPageNum(1));
    assert_eq!(VirtAddr::from(0x1234).ceil(), VirtPageNum(2));
    assert_eq!(VirtAddr::from(0x2000).floor(), VirtPageNum(2));
    assert_eq!(VirtAddr::from(0x2000).ceil(), VirtPageNum(2));
    assert_eq!(VirtAddr::from(0).ceil(), VirtPageNum(0));
    assert_eq!(VirtAddr::from(0x1234).page_offset(), 0x234);
    assert!(VirtAddr::from(0x3000).aligned());
    assert!(!VirtAddr::from(0x3001).aligned());
    assert_eq!(PhysAddr::from(0x8020_0fff).floor(), PhysPageNum(0x80200));
    assert_eq!(PhysAddr::from(0x8020_0fff).ceil(), PhysPageNum(0x80201));
    assert_eq!(PhysPageNum(0x80200).addr(), PhysAddr(0x8020_0000));
    assert_eq!(VirtPageNum(5).addr(), VirtAddr(0x5000));
}

#[test]
fn addresses_are_masked() {
    assert_eq!(VirtAddr::from(TRAMPOLINE), VirtAddr(0x7f_ffff_f000));
    assert_eq!(VirtAddr::from(TRAMPOLINE).floor(), VirtPageNum(0x7ff_ffff));
    assert_eq!(VirtAddr::from(TRAP_CONTEXT).floor(), VirtPageNum(0x7ff_fffe));
    assert_eq!(VirtPageNum::from(0xffff_ffff_ffff), VirtPageNum(0x7ff_ffff));
    assert_eq!(PhysPageNum::from(0x8000_0000_0008_0200), PhysPageNum(0x80200));
    assert_eq!(PhysAddr::from(u64::MAX), PhysAddr(0xff_ffff_ffff_ffff));
    assert_eq!(VirtAddr(0x7f_ffff_f000).to_u64(), TRAMPOLINE);
    assert_eq!(VirtAddr(0x1000).to_u64(), 0x1000);
}

#[test]
fn page_number_splits_into_three_indexes() {
    let vpn = VirtPageNum((3 << 18) | (5 << 9) | 7);
    assert_eq!(vpn.indexes(), [3, 5, 7]);
    assert_eq!(VirtPageNum(0x7ff_ffff).indexes(), [511, 511, 511]);
    assert_eq!(VirtPageNum(0).indexes(), [0, 0, 0]);
}

#[test]
fn range_keeps_its_bounds() {
    let r = VPNRange::new(VirtPageNum(4), VirtPageNum(9));
    assert_eq!(r.get_start(), VirtPageNum(4));
    assert_eq!(r.get_end(), VirtPageNum(9));
}

#[test]
fn flags_combine() {
    let rw = PTEFlags { bits: FLAG_R }.union(PTEFlags { bits: FLAG_W });
    assert_eq!(rw.bits(), 6);
    assert!(rw.contains(PTEFlags { bits: FLAG_R }));
    assert!(!rw.contains(PTEFlags { bits: FLAG_X }));
    assert_eq!(rw.intersection(PTEFlags { bits: FLAG_W | FLAG_X }).bits(), FLAG_W);
    assert!(PTEFlags::empty().is_empty());
    assert_eq!(PTEFlags::from_bits(511), Some(PTEFlags { bits: 511 }));
    assert_eq!(PTEFlags::from_bits(512), None);
    assert_eq!(MapPermission::from_bits(22), Some(MapPermission { bits: 22 }));
    assert_eq!(MapPermission::from_bits(1024), None);
    let perm = MapPermission { bits: FLAG_R }.union(MapPermission { bits: FLAG_U });
    assert_eq!(perm.bits(), 18);
    assert!(perm.contains(MapPermission { bits: FLAG_U }));
    assert!(MapPermission::empty().bits() == 0);
}

#[test]
fn entry_packs_page_number_and_flags() {
    let e = PageTableEntry::new(PhysPageNum(0x80321), PTEFlags { bits: FLAG_V | FLAG_R | FLAG_X });
    assert_eq!(e.bits, (0x80321 << 10) | 0b1011);
    assert_eq!(e.ppn(), PhysPageNum(0x80321));
    assert_eq!(e.flags(), PTEFlags { bits: 0b1011 });
    assert!(e.is_valid());
    assert!(e.is_readable());
    assert!(!e.is_writable());
    assert!(e.is_executable());
    assert!(!e.is_cow_page());
    let empty = PageTableEntry::empty();
    assert_eq!(empty.bits, 0);
    assert!(!empty.is_valid());
    let cow = PageTableEntry::new(PhysPageNum(1), PTEFlags { bits: 256 | FLAG_V });
    assert!(cow.is_cow_page());
}

#[test]
fn allocator_hands_out_fresh_then_recycled() {
    let mut a = allocator(10, 13);
    assert_eq!(a.available(), 3);
    assert_eq!(a.allocate(), Some(PhysPageNum(10)));
    assert_eq!(a.allocate(), Some(PhysPageNum(11)));
    assert!(a.holds(PhysPageNum(10)));
    assert!(!a.holds(PhysPageNum(12)));
    a.dealloc(PhysPageNum(10));
    assert!(!a.holds(PhysPageNum(10)));
    assert_eq!(a.available(), 2);
    assert_eq!(a.allocate(), Some(PhysPageNum(10)));
    assert_eq!(a.allocate(), Some(PhysPageNum(12)));
    assert_eq!(a.allocate(), None);
    assert_eq!(a.available(), 0);
    a.dealloc(PhysPageNum(11));
    a.dealloc(PhysPageNum(12));
    assert_eq!(a.allocate(), Some(PhysPageNum(12)));
    assert_eq!(a.allocate(), Some(PhysPageNum(11)));
}

#[test]
fn allocator_covers_memory_behind_the_kernel() {
    let mut a = StackFrameAllocator::new();
    init_frame_allocator(&mut a, 0x8023_0001);
    assert_eq!(a.allocate(), Some(PhysPageNum(0x80231)));
    assert_eq!(a.available() as u64, MEMORY_END / PAGE_SIZE - 0x80231 - 1);
}

#[test]
fn frame_is_zeroed_and_tracked() {
    let mut a = allocator(20, 22);
    let f = frame_alloc(&mut a).unwrap();
    assert_eq!(f.ppn, PhysPageNum(20));
    assert_eq!(f.bytes.len(), 4096);
    assert!(f.bytes.iter().all(|b| *b == 0));
    let g = FrameTracker::new(PhysPageNum(21));
    assert_eq!(g.ppn.0, 21);
    assert_eq!(FrameTrackerMarker::new(PhysPageNum(7)).ppn, PhysPageNum(7));
    frame_dealloc(&mut a, f.ppn);
    assert_eq!(frame_alloc(&mut a).unwrap().ppn, PhysPageNum(20));
    assert!(frame_alloc(&mut a).is_some());
    assert!(frame_alloc(&mut a).is_none());
}

#[test]
fn allocator_self_test_restores_the_allocator() {
    let mut a = allocator(100, 110);
    let first = a.allocate().unwrap();
    frame_allocator_test(&mut a);
    assert_eq!(a.available(), 9);
    assert!(a.holds(first));
    // The frames the test used go out again, last freed first.
    assert_eq!(a.allocate(), Some(PhysPageNum(101)));
}

#[test]
fn allocator_self_test_keeps_the_order_of_allocation() {
    // Two recycled frames and fresh ones behind them.
    let mut a = allocator(100, 110);
    let taken: Vec<PhysPageNum> = (0..3).map(|_| a.allocate().unwrap()).collect();
    a.dealloc(taken[0]);
    a.dealloc(taken[2]);
    frame_allocator_test(&mut a);
    assert_eq!(a.available(), 9);
    assert!(a.holds(taken[1]));
    let next: Vec<u64> = (0..9).map(|_| a.allocate().unwrap().0).collect();
    assert_eq!(next, vec![102, 100, 103, 104, 105, 106, 107, 108, 109]);
    assert_eq!(a.allocate(), None);
}

#[test]
fn map_translate_unmap() {
    let mut a = allocator(100, 200);
    let mut pt = PageTable::new(&mut a).unwrap();
    assert_eq!(pt.root_ppn(), PhysPageNum(100));
    assert_eq!(pt.token(), (8u64 << 60) | 100);
    let v = VirtPageNum(0x12345);
    assert_eq!(pt.translate(v), None);
    let flags = PTEFlags { bits: FLAG_R | FLAG_W };
    pt.map(&mut a, MapArgs::builder(v, PhysPageNum(0x999)).with_flags(flags)).unwrap();
    let e = pt.translate(v).unwrap();
    assert_eq!(e.ppn(), PhysPageNum(0x999));
    assert_eq!(e.flags(), PTEFlags { bits: FLAG_R | FLAG_W | FLAG_V });
    assert_eq!(pt.find_ppn(v), Some(PhysPageNum(0x999)));
    assert_eq!(pt.translate_va(VirtAddr(0x12345_678)), Some(PhysAddr(0x999_678)));
    assert_eq!(pt.translate(VirtPageNum(0x12346)), None);
    // Two directories were needed below the root.
    assert_eq!(a.available(), 97);
    pt.unmap(&mut a, UnmapArgs::builder(v).with_panic(true));
    assert_eq!(pt.translate(v), None);
    assert_eq!(pt.find_ppn(v), None);
    assert_eq!(pt.translate_va(VirtAddr(0x12345_678)), None);
    // Unmapping a page that is not mapped is tolerated without `panic`.
    pt.unmap(&mut a, UnmapArgs::builder(v));
    pt.unmap(&mut a, UnmapArgs::builder(VirtPageNum(7)).with_dealloc(true));
    assert_eq!(a.available(), 97);
}

#[test]
fn neighbours_share_directories() {
    let mut a = allocator(100, 200);
    let mut pt = PageTable::new(&mut a).unwrap();
    pt.map(&mut a, MapArgs::builder(VirtPageNum(0), PhysPageNum(1))).unwrap();
    assert_eq!(a.available(), 97);
    pt.map(&mut a, MapArgs::builder(VirtPageNum(1), PhysPageNum(2))).unwrap();
    assert_eq!(a.available(), 97);
    pt.map(&mut a, MapArgs::builder(VirtPageNum(512), PhysPageNum(3))).unwrap();
    assert_eq!(a.available(), 96);
    pt.map(&mut a, MapArgs::builder(VirtPageNum(1 << 18), PhysPageNum(4))).unwrap();
    assert_eq!(a.available(), 94);
    assert_eq!(pt.find_ppn(VirtPageNum(0)), Some(PhysPageNum(1)));
    assert_eq!(pt.find_ppn(VirtPageNum(1)), Some(PhysPageNum(2)));
    assert_eq!(pt.find_ppn(VirtPageNum(512)), Some(PhysPageNum(3)));
    assert_eq!(pt.find_ppn(VirtPageNum(1 << 18)), Some(PhysPageNum(4)));
    assert_eq!(pt.find_ppn(VirtPageNum(2)), None);
}

#[test]
fn map_fails_without_frames_for_directories() {
    let mut a = allocator(100, 102);
    let mut pt = PageTable::new(&mut a).unwrap();
    let r = pt.map(&mut a, MapArgs::builder(VirtPageNum(9), PhysPageNum(9)));
    assert_eq!(r, Err(MemError::OutOfFrames));
    let mut b = allocator(5, 5);
    assert!(PageTable::new(&mut b).is_err());
}

#[test]
fn owned_frame_goes_back_on_unmap() {
    let mut a = allocator(100, 200);
    let mut pt = PageTable::new(&mut a).unwrap();
    let frame = frame_alloc(&mut a).unwrap();
    let ppn = frame.ppn;
    let args = MapArgs::builder(VirtPageNum(3), ppn)
        .with_vpn(VirtPageNum(4))
        .with_ppn(ppn)
        .with_flags(PTEFlags { bits: FLAG_R })
        .with_frame(Some(frame));
    pt.map(&mut a, args).unwrap();
    assert!(pt.owns_frame(ppn));
    assert_eq!(pt.frame_bytes(ppn).unwrap().len(), 4096);
    pt.write_frame(ppn, 10, &[1, 2, 3]);
    assert_eq!(&pt.frame_bytes(ppn).unwrap()[9..14], &[0, 1, 2, 3, 0]);
    assert_eq!(pt.read_byte(0x4000 + 11), Some(2));
    assert!(pt.write_byte(0x4000 + 11, 9));
    assert_eq!(pt.read_byte(0x4000 + 11), Some(9));
    assert_eq!(pt.read_byte(0x5000), None);
    assert!(!pt.write_byte(0x5000, 1));
    let before = a.available();
    pt.unmap(
        &mut a,
        UnmapArgs::builder(VirtPageNum(0)).with_vpn(VirtPageNum(4)).with_dealloc(true).with_panic(true),
    );
    assert!(!pt.owns_frame(ppn));
    assert!(pt.frame_bytes(ppn).is_none());
    assert_eq!(a.available(), before + 1);
    assert!(!a.holds(ppn));
}

#[test]
fn recycle_frees_everything() {
    let mut a = allocator(100, 200);
    let mut pt = PageTable::new(&mut a).unwrap();
    let frame = frame_alloc(&mut a).unwrap();
    let ppn = frame.ppn;
    pt.map(&mut a, MapArgs::builder(VirtPageNum(4), ppn).with_frame(Some(frame))).unwrap();
    assert_eq!(a.available(), 96);
    pt.recycle(&mut a);
    assert_eq!(a.available(), 100);
}

#[test]
fn area_covers_touched_pages() {
    let perm = MapPermission { bits: FLAG_R };
    let area = MapArea::new(VirtAddr(0x1800), VirtAddr(0x3001), MapType::Framed, perm);
    assert_eq!(area.get_start(), VirtPageNum(1));
    assert_eq!(area.get_end(), VirtPageNum(4));
    assert_eq!(area.get_type(), MapType::Framed);
    assert_eq!(area.get_perm(), perm);
    let copy = MapArea::from_another(&area);
    assert_eq!(copy.get_start(), VirtPageNum(1));
    assert_eq!(copy.get_end(), VirtPageNum(4));
}

#[test]
fn push_copies_data_page_by_page() {
    let mut a = allocator(100, 200);
    let mut ms = MemorySet::new_bare(&mut a).unwrap();
    let data: Vec<u8> = (0..5000u32).map(|i| (i % 251) as u8).collect();
    let perm = MapPermission { bits: FLAG_R | FLAG_U };
    let area = MapArea::new(VirtAddr(0x10000), VirtAddr(0x12000), MapType::Framed, perm);
    ms.push(&mut a, area, Some(&data)).unwrap();
    let pt = ms.page_table();
    assert_eq!(pt.read_byte(0x10000), Some(0));
    assert_eq!(pt.read_byte(0x10000 + 4095), Some((4095 % 251) as u8));
    assert_eq!(pt.read_byte(0x10000 + 4096), Some((4096 % 251) as u8));
    assert_eq!(pt.read_byte(0x10000 + 4999), Some((4999 % 251) as u8));
    assert_eq!(pt.read_byte(0x10000 + 5000), Some(0));
    assert_eq!(pt.read_byte(0x12000), None);
    let e = ms.translate(VirtPageNum(0x10)).unwrap();
    assert_eq!(e.flags().bits(), FLAG_R | FLAG_U | FLAG_V);
    assert_eq!(ms.area(VirtPageNum(0x10)).unwrap().get_end(), VirtPageNum(0x12));
    assert!(ms.area(VirtPageNum(0x11)).is_none());
    assert_eq!(ms.token(), (8u64 << 60) | 100);
}

#[test]
fn identical_area_maps_pages_to_themselves() {
    let mut a = allocator(100, 200);
    let mut ms = MemorySet::new_bare(&mut a).unwrap();
    let perm = MapPermission { bits: FLAG_R | FLAG_W };
    let area = MapArea::new(VirtAddr(0x8000_0000), VirtAddr(0x8000_3000), MapType::Identical, perm);
    let before = a.available();
    ms.push(&mut a, area, None).unwrap();
    assert_eq!(before - a.available(), 2);
    for v in 0x80000..0x80003u64 {
        assert_eq!(ms.translate(VirtPageNum(v)).unwrap().ppn(), PhysPageNum(v));
    }
    assert!(ms.translate(VirtPageNum(0x80003)).is_none());
}

#[test]
fn areas_grow_shrink_and_go() {
    let mut a = allocator(100, 200);
    let mut ms = MemorySet::new_bare(&mut a).unwrap();
    let perm = MapPermission { bits: FLAG_R | FLAG_W | FLAG_U };
    ms.insert_framed_area(&mut a, VirtAddr(0x20000), VirtAddr(0x20000), perm).unwrap();
    let base = a.available();
    assert!(ms.range_free(0x20, 0x30));
    assert_eq!(ms.append_to(&mut a, VirtAddr(0x20000), VirtAddr(0x22001)), Ok(true));
    assert!(!ms.range_free(0x20, 0x30));
    assert!(ms.range_free(0x23, 0x30));
    assert!(ms.translate(VirtPageNum(0x22)).is_some());
    assert!(ms.translate(VirtPageNum(0x23)).is_none());
    // Three pages and the two directories on the way to them.
    assert_eq!(base - a.available(), 5);
    assert!(ms.shrink_to(&mut a, VirtAddr(0x20000), VirtAddr(0x20001)));
    assert!(ms.translate(VirtPageNum(0x20)).is_some());
    assert!(ms.translate(VirtPageNum(0x21)).is_none());
    assert_eq!(base - a.available(), 3);
    assert_eq!(ms.append_to(&mut a, VirtAddr(0x50000), VirtAddr(0x51000)), Ok(false));
    assert!(!ms.shrink_to(&mut a, VirtAddr(0x50000), VirtAddr(0x50000)));
    ms.remove_area_with_start_vpn(&mut a, VirtPageNum(0x20));
    assert!(ms.translate(VirtPageNum(0x20)).is_none());
    assert!(ms.area(VirtPageNum(0x20)).is_none());
    assert_eq!(base - a.available(), 2);
    ms.remove_area_with_start_vpn(&mut a, VirtPageNum(0x20));
    ms.recycle_pages(&mut a);
    assert_eq!(a.available(), 100);
}

#[test]
fn single_pages_are_removed_from_a_range() {
    let mut a = allocator(100, 200);
    let mut ms = MemorySet::new_bare(&mut a).unwrap();
    let perm = MapPermission { bits: FLAG_R | FLAG_W | FLAG_U };
    ms.insert_framed_area(&mut a, VirtAddr(0x30000), VirtAddr(0x30001), perm).unwrap();
    ms.insert_framed_area(&mut a, VirtAddr(0x32000), VirtAddr(0x32001), perm).unwrap();
    ms.insert_framed_area(&mut a, VirtAddr(0x34000), VirtAddr(0x36000), perm).unwrap();
    ms.remove_framed_area(&mut a, VirtAddr(0x30000), VirtAddr(0x37000));
    assert!(ms.translate(VirtPageNum(0x30)).is_none());
    assert!(ms.translate(VirtPageNum(0x32)).is_none());
    // An area of two pages is none of the single pages.
    assert!(ms.translate(VirtPageNum(0x34)).is_some());
    assert!(ms.translate(VirtPageNum(0x35)).is_some());
}

#[test]
fn copy_has_same_bytes_in_frames_of_its_own() {
    let mut a = allocator(100, 300);
    let mut ms = MemorySet::new_bare(&mut a).unwrap();
    ms.map_trampoline(&mut a, 0x8020_1000).unwrap();
    let perm = MapPermission { bits: FLAG_R | FLAG_W | FLAG_U };
    let data: Vec<u8> = (0..6000u32).map(|i| (i % 7 + 1) as u8).collect();
    let area = MapArea::new(VirtAddr(0x10000), VirtAddr(0x12000), MapType::Framed, perm);
    ms.push(&mut a, area, Some(&data)).unwrap();
    let mut copy = MemorySet::from_another(&mut a, &ms, 0x8020_1000).unwrap();
    for i in [0u64, 1, 4095, 4096, 5999, 6000, 8191] {
        assert_eq!(copy.page_table().read_byte(0x10000 + i), ms.page_table().read_byte(0x10000 + i));
    }
    assert_eq!(copy.page_table().read_byte(0x10005), Some(6));
    let there = ms.translate(VirtPageNum(0x10)).unwrap();
    let here = copy.translate(VirtPageNum(0x10)).unwrap();
    assert_ne!(there.ppn(), here.ppn());
    assert_eq!(there.flags(), here.flags());
    assert!(copy.write_user_byte(0x10005, 99));
    assert_eq!(copy.page_table().read_byte(0x10005), Some(99));
    assert_eq!(ms.page_table().read_byte(0x10005), Some(6));
    let tramp = copy.translate(VirtPageNum(0x7ff_ffff)).unwrap();
    assert_eq!(tramp.ppn(), PhysPageNum(0x80201));
    assert_eq!(tramp.flags().bits(), FLAG_R | FLAG_X | FLAG_V);
}

#[test]
fn buffers_are_cut_at_page_boundaries() {
    let mut a = allocator(100, 200);
    let mut ms = MemorySet::new_bare(&mut a).unwrap();
    let perm = MapPermission { bits: FLAG_R | FLAG_W | FLAG_U };
    let data: Vec<u8> = (0..8192u32).map(|i| (i % 256) as u8).collect();
    let area = MapArea::new(VirtAddr(0x10000), VirtAddr(0x12000), MapType::Framed, perm);
    ms.push(&mut a, area, Some(&data)).unwrap();
    let parts = translated_byte_buffer(ms.page_table(), 0x10ffe, 5).unwrap();
    assert_eq!(parts, vec![vec![0xfe, 0xff], vec![0, 1, 2]]);
    let one = translated_byte_buffer(ms.page_table(), 0x10010, 3).unwrap();
    assert_eq!(one, vec![vec![0x10, 0x11, 0x12]]);
    assert_eq!(translated_byte_buffer(ms.page_table(), 0x10010, 0).unwrap().len(), 0);
    assert!(translated_byte_buffer(ms.page_table(), 0x11ffe, 5).is_none());
    assert!(translated_byte_buffer(ms.page_table(), u64::MAX - 1, 5).is_none());
}

#[test]
fn strings_end_at_the_zero_byte() {
    let mut a = allocator(100, 200);
    let mut ms = MemorySet::new_bare(&mut a).unwrap();
    let perm = MapPermission { bits: FLAG_R | FLAG_W | FLAG_U };
    let mut data = vec![1u8; 4096];
    data[4090..4096].copy_from_slice(b"hello\0");
    data[100..104].copy_from_slice(b"ab\0c");
    let area = MapArea::new(VirtAddr(0x10000), VirtAddr(0x11000), MapType::Framed, perm);
    ms.push(&mut a, area, Some(&data)).unwrap();
    assert_eq!(translate_str(ms.page_table(), 0x10000 + 4090), Some(b"hello".to_vec()));
    assert_eq!(translate_str(ms.page_table(), 0x10000 + 100), Some(b"ab".to_vec()));
    assert_eq!(translate_str(ms.page_table(), 0x10000 + 102), Some(vec![]));
    // The string that starts at the last byte but one runs off the page.
    assert_eq!(translate_str(ms.page_table(), 0x10000 + 103), Some(vec![b'c'; 1].into_iter().chain(vec![1u8; 3986]).chain(b"hello".to_vec()).collect()));
    assert_eq!(translate_str(ms.page_table(), 0x20000), None);
    let mut tail = vec![7u8; 4096];
    tail[0] = 7;
    let area2 = MapArea::new(VirtAddr(0x30000), VirtAddr(0x31000), MapType::Framed, perm);
    ms.push(&mut a, area2, Some(&tail)).unwrap();
    assert_eq!(translate_str(ms.page_table(), 0x30000), None);
}

#[test]
fn exit_code_is_copied_out_low_byte_first() {
    let mut a = allocator(100, 200);
    let mut ms = MemorySet::new_bare(&mut a).unwrap();
    let perm = MapPermission { bits: FLAG_R | FLAG_W | FLAG_U };
    ms.insert_framed_area(&mut a, VirtAddr(0x10000), VirtAddr(0x12000), perm).unwrap();
    assert!(translated_copyout(&mut ms, 0x10ffe, 0x0102_0304));
    let parts = translated_byte_buffer(ms.page_table(), 0x10ffe, 4).unwrap();
    assert_eq!(parts, vec![vec![4, 3], vec![2, 1]]);
    assert!(translated_copyout(&mut ms, 0x10000, -2));
    assert_eq!(translated_byte_buffer(ms.page_table(), 0x10000, 4).unwrap(), vec![vec![0xfe, 0xff, 0xff, 0xff]]);
    assert!(!translated_copyout(&mut ms, 0x11ffe, 1));
    assert_eq!(ms.page_table().read_byte(0x11ffe), Some(0));
    assert!(!translated_copyout(&mut ms, u64::MAX - 2, 1));
}

#[test]
fn kernel_space_maps_sections_and_passes_its_test() {
    let l = layout();
    assert!(l.check());
    let mut a = StackFrameAllocator::new();
    init_frame_allocator(&mut a, l.ekernel);
    let mut ks = MemorySet::new_kernel(&mut a, &l).unwrap();
    let text = ks.translate(VirtPageNum(0x80205)).unwrap();
    assert_eq!(text.ppn(), PhysPageNum(0x80205));
    assert_eq!(text.flags().bits(), FLAG_R | FLAG_X | FLAG_V);
    let rodata = ks.translate(VirtPageNum(0x80212)).unwrap();
    assert_eq!(rodata.flags().bits(), FLAG_R | FLAG_V);
    let data = ks.translate(VirtPageNum(0x8021f)).unwrap();
    assert_eq!(data.flags().bits(), FLAG_R | FLAG_W | FLAG_V);
    let last = ks.translate(VirtPageNum(0x87fff)).unwrap();
    assert_eq!(last.ppn(), PhysPageNum(0x87fff));
    assert!(ks.translate(VirtPageNum(0x88000)).is_none());
    assert!(ks.translate(VirtPageNum(0x801ff)).is_none());
    let tramp = ks.translate(VirtPageNum(0x7ff_ffff)).unwrap();
    assert_eq!(tramp.ppn(), PhysPageNum(0x80201));
    let before = a.available();
    assert_eq!(remap_test(&mut ks, &mut a, &l), Ok(true));
    // The page the test mapped is gone again, with its frame.
    assert!(ks.translate(VirtPageNum(0x7ff_fffd)).is_none());
    assert_eq!(a.available(), before);
}

#[test]
fn overlapping_sections_are_no_layout() {
    let mut l = layout();
    l.srodata = 0x8020_f000;
    assert!(!l.check());
    let mut m = layout();
    m.ekernel = MEMORY_END + 1;
    assert!(!m.check());
    let mut n = layout();
    n.etext = 0x8010_0000;
    assert!(!n.check());
}

#[test]
fn area_takes_exactly_its_pages_and_directories() {
    // Pages 510 .. 514 lie in two leaf directories below one upper directory.
    let perm = MapPermission { bits: FLAG_R | FLAG_W };
    let area = MapArea::new(VirtAddr(510 * 4096), VirtAddr(514 * 4096), MapType::Framed, perm);
    let mut a = allocator(100, 108);
    let mut ms = MemorySet::new_bare(&mut a).unwrap();
    assert_eq!(a.available(), 7);
    ms.push(&mut a, area, None).unwrap();
    assert_eq!(a.available(), 0);
    let mut b = allocator(100, 107);
    let mut short = MemorySet::new_bare(&mut b).unwrap();
    assert_eq!(short.push(&mut b, area, None), Err(MemError::OutOfFrames));
}

#[test]
fn identical_area_takes_directories_only() {
    let perm = MapPermission { bits: FLAG_R };
    let area = MapArea::new(VirtAddr(0), VirtAddr(1024 * 4096), MapType::Identical, perm);
    let mut a = allocator(100, 104);
    let mut ms = MemorySet::new_bare(&mut a).unwrap();
    ms.push(&mut a, area, None).unwrap();
    assert_eq!(a.available(), 0);
    let mut b = allocator(100, 103);
    let mut short = MemorySet::new_bare(&mut b).unwrap();
    assert_eq!(short.push(&mut b, area, None), Err(MemError::OutOfFrames));
}

#[test]
fn later_areas_share_the_directories_of_earlier_ones() {
    let perm = MapPermission { bits: FLAG_R | FLAG_W };
    let mut a = allocator(100, 200);
    let mut ms = MemorySet::new_bare(&mut a).unwrap();
    ms.map_trampoline(&mut a, 0x8020_1000).unwrap();
    assert_eq!(a.available(), 97);
    // The page below the trampoline shares both of its directories.
    ms.insert_framed_area(&mut a, VirtAddr(0x7f_ffff_e000), VirtAddr(0x7f_ffff_f000), perm).unwrap();
    assert_eq!(a.available(), 96);
    // A page far below takes two directories and its frame.
    ms.insert_framed_area(&mut a, VirtAddr(0x10000), VirtAddr(0x11000), perm).unwrap();
    assert_eq!(a.available(), 93);
    // Unmapping gives the frame back and keeps the directories.
    ms.remove_area_with_start_vpn(&mut a, VirtPageNum(0x10));
    assert_eq!(a.available(), 94);
    ms.insert_framed_area(&mut a, VirtAddr(0x10000), VirtAddr(0x11000), perm).unwrap();
    assert_eq!(a.available(), 93);
}

#[test]
fn copy_takes_exactly_what_its_source_took() {
    let perm = MapPermission { bits: FLAG_R | FLAG_W | FLAG_U };
    let mut a = allocator(100, 200);
    let mut ms = MemorySet::new_bare(&mut a).unwrap();
    ms.map_trampoline(&mut a, 0x8020_1000).unwrap();
    ms.insert_framed_area(&mut a, VirtAddr(0x20_0000), VirtAddr(0x20_3000), perm).unwrap();
    ms.insert_framed_area(&mut a, VirtAddr(0x10000), VirtAddr(0x12000), perm).unwrap();
    // Root, two directories for the trampoline, three for the areas, five pages.
    assert_eq!(a.available(), 89);
    let mut b = allocator(300, 311);
    assert!(MemorySet::from_another(&mut b, &ms, 0x8020_1000).is_ok());
    assert_eq!(b.available(), 0);
    let mut c = allocator(300, 310);
    assert!(MemorySet::from_another(&mut c, &ms, 0x8020_1000).is_err());
}

#[test]
fn kernel_space_test_gives_its_frame_back() {
    let l = layout();
    let (mut a, mut ks) = sv39_kernel::mm::init(&l).unwrap();
    let before = a.available();
    assert_eq!(remap_test(&mut ks, &mut a, &l), Ok(true));
    assert_eq!(a.available(), before);
    assert_eq!(remap_test(&mut ks, &mut a, &l), Ok(true));
    assert_eq!(a.available(), before);
}

#[test]
fn unmapped_frame_is_the_next_to_be_handed_out() {
    let mut a = allocator(100, 200);
    let mut pt = PageTable::new(&mut a).unwrap();
    let f = frame_alloc(&mut a).unwrap();
    let p = f.ppn;
    let args = MapArgs::builder(VirtPageNum(16), p)
        .with_flags(PTEFlags::from_bits(FLAG_R).unwrap())
        .with_frame(Some(f));
    pt.map(&mut a, args).unwrap();
    let left = a.available();
    pt.unmap(&mut a, UnmapArgs::builder(VirtPageNum(16)).with_dealloc(true).with_panic(true));
    assert_eq!(pt.translate(VirtPageNum(16)), None);
    assert_eq!(a.available(), left + 1);
    assert_eq!(frame_alloc(&mut a).unwrap().ppn, p);
    // The directories stay: mapping the page again takes no frame.
    pt.map(&mut a, MapArgs::builder(VirtPageNum(16), PhysPageNum(7))).unwrap();
    assert_eq!(a.available(), left);
}
