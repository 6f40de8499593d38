use os::consts::{PAGE_SIZE, PHYSICAL_MEMORY_OFFSET};
use os::init::free_physical_frames;
use os::memory::access_pa_via_va;
use os::memory::frame_allocator::SegmentTreeAllocator;
use os::memory::{kernel_layout_fits, kernel_remap};
use os::memory::memory_set::area::MemoryArea;
use os::memory::memory_set::attr::MemoryAttr;
use os::memory::memory_set::handler::{ByFrame, HandlerBox, Linear, MemoryHandler};
use os::memory::memory_set::{KernelLayout, MemorySet};
use os::memory::paging::{PageEntry, PageTableImpl};

const K: u64 = 0xffff_ffff_c020_0000;

fn layout() -> KernelLayout {
    KernelLayout {
        stext: K,
        etext: K + 0x3000,
        srodata: K + 0x3000,
        erodata: K + 0x5000,
        sdata: K + 0x5000,
        edata: K + 0x6000,
        sbss: K + 0xa000,
        ebss: K + 0x20000,
        end: K + 0x20000,
    }
}

fn frames() -> SegmentTreeAllocator {
    let mut f = SegmentTreeAllocator::new();
    f.init(0x80300, 0x80400);
    f
}

#[test]
fn attr_builders_and_apply() {
    let mut e = PageEntry { target: 0x1000, present: false, readable: true, writable: true, executable: true, user: false };
    MemoryAttr::new().apply(&mut e);
    assert_eq!(e, PageEntry { target: 0x1000, present: true, readable: true, writable: true, executable: false, user: false });
    MemoryAttr::new().set_readonly().set_execute().apply(&mut e);
    assert!(e.present && !e.writable && e.executable && !e.user);
    MemoryAttr::new().set_user().apply(&mut e);
    assert!(e.present && e.writable && !e.executable && e.user);
    assert_eq!(e.target, 0x1000);
    assert!(e.readable);
}

#[test]
fn page_table_map_unmap() {
    let mut f = frames();
    let mut pt = PageTableImpl::new_bare(&mut f);
    assert_eq!(pt.root_ppn(), 0x80300);
    let e = pt.map(0x4000_1234, 0x8000_5678);
    assert_eq!(*e, PageEntry { target: 0x8000_5000, present: true, readable: true, writable: true, executable: true, user: false });
    e.set_writable(false);
    assert_eq!(pt.get_entry(0x4000_1000).unwrap().writable, false);
    assert_eq!(pt.get_entry(0x4000_2000), None);
    pt.unmap(0x4000_1fff);
    assert_eq!(pt.get_entry(0x4000_1000), None);
}

#[test]
fn linear_handler_maps_to_va_minus_offset() {
    let mut f = frames();
    let mut pt = PageTableImpl::new_bare(&mut f);
    let h = Linear::new(PHYSICAL_MEMORY_OFFSET);
    h.map(&mut pt, K, &MemoryAttr::new().set_readonly(), &mut f);
    let e = pt.get_entry(K).unwrap();
    assert_eq!(e.target, 0x8020_0000);
    assert!(!e.writable && !e.executable && e.present);
    assert_eq!(access_pa_via_va(0x8020_0000), K);
    h.unmap(&mut pt, K);
    assert_eq!(pt.get_entry(K), None);
}

#[test]
fn by_frame_handler_takes_lowest_free_frame() {
    let mut f = frames();
    let mut pt = PageTableImpl::new_bare(&mut f);
    let h = ByFrame::new();
    h.map(&mut pt, 0x1000, &MemoryAttr::new().set_user(), &mut f);
    h.map(&mut pt, 0x2000, &MemoryAttr::new(), &mut f);
    assert_eq!(pt.get_entry(0x1000).unwrap().target, 0x80301 << 12);
    assert_eq!(pt.get_entry(0x2000).unwrap().target, 0x80302 << 12);
    assert!(pt.get_entry(0x1000).unwrap().user);
    assert_eq!(f.allocate(), 0x80303);
}

#[test]
fn overlap_is_decided_by_pages() {
    let a = MemoryArea::new(0x1000, 0x3000, HandlerBox::Linear(Linear::new(0)), MemoryAttr::new());
    assert!(!a.is_overlap_with(0x3000, 0x4000));
    assert!(!a.is_overlap_with(0x0, 0x1000));
    assert!(a.is_overlap_with(0x2fff, 0x4000));
    assert!(a.is_overlap_with(0x0, 0x1001));
    // ranges within one page overlap even when the addresses do not
    assert!(a.is_overlap_with(0x3000 - 1, 0x3000));
    let b = MemoryArea::new(0x1800, 0x1900, HandlerBox::ByFrame(ByFrame::new()), MemoryAttr::new());
    assert!(b.is_overlap_with(0x1000, 0x1001));
}

#[test]
fn area_map_and_unmap_all_pages() {
    let mut f = frames();
    let mut pt = PageTableImpl::new_bare(&mut f);
    let a = MemoryArea::new(0x1800, 0x4001, HandlerBox::Linear(Linear::new(0x1000)), MemoryAttr::new());
    a.map(&mut pt, &mut f);
    for page in 1..5u64 {
        assert_eq!(pt.get_entry(page * PAGE_SIZE).unwrap().target, page * PAGE_SIZE - 0x1000);
    }
    assert_eq!(pt.get_entry(0), None);
    assert_eq!(pt.get_entry(5 * PAGE_SIZE), None);
    a.unmap(&mut pt);
    for page in 0..6u64 {
        assert_eq!(pt.get_entry(page * PAGE_SIZE), None);
    }
}

#[test]
fn kernel_memory_set_maps_sections() {
    let mut f = frames();
    let set = MemorySet::new(&layout(), &mut f);
    assert_eq!(set.area_count(), 5);
    let pt = set.page_table_ref();
    assert_eq!(pt.root_ppn(), 0x80300);
    let text = pt.get_entry(K + 0x1000).unwrap();
    assert_eq!(text.target, 0x8020_1000);
    assert!(text.present && text.readable && !text.writable && text.executable && !text.user);
    let rodata = pt.get_entry(K + 0x4000).unwrap();
    assert!(!rodata.writable && !rodata.executable);
    let data = pt.get_entry(K + 0x5000).unwrap();
    assert!(data.writable && !data.executable);
    let bss = pt.get_entry(K + 0x1f000).unwrap();
    assert!(bss.writable && !bss.executable);
    // the gap between data and bss, and the page right after the kernel image, stay unmapped
    assert_eq!(pt.get_entry(K + 0x6000), None);
    assert_eq!(pt.get_entry(K + 0x20000), None);
    let phys = pt.get_entry(K + 0x21000).unwrap();
    assert_eq!(phys.target, 0x8022_1000);
    let last = pt.get_entry(access_pa_via_va(0x8800_0000) - 1).unwrap();
    assert_eq!(last.target, 0x87ff_f000);
    assert_eq!(pt.get_entry(access_pa_via_va(0x8800_0000)), None);
}

#[test]
fn push_refuses_nothing_free_is_tested_first() {
    let mut f = frames();
    let mut set = MemorySet::new(&layout(), &mut f);
    assert!(!set.test_free_area(K + 0x2000, K + 0x7000));
    assert!(set.test_free_area(K + 0x6000, K + 0xa000));
    set.push(K + 0x6000, K + 0xa000, MemoryAttr::new(), HandlerBox::ByFrame(ByFrame::new()), &mut f);
    assert_eq!(set.area_count(), 6);
    assert!(!set.test_free_area(K + 0x9fff, K + 0xa000));
    let e = set.page_table_ref().get_entry(K + 0x6000).unwrap();
    assert_eq!(e.target, 0x80301 << 12);
}

#[test]
fn kernel_remap_adds_boot_stack() {
    let mut f = frames();
    let set = kernel_remap(&layout(), K + 0x6000, K + 0xa000, &mut f);
    assert_eq!(set.area_count(), 6);
    let e = set.page_table_ref().get_entry(K + 0x9000).unwrap();
    assert_eq!(e.target, 0x8020_9000);
    assert!(e.writable && !e.executable);
    assert_eq!(f.allocate(), 0x80301);
}

#[test]
fn free_physical_frames_after_kernel() {
    assert_eq!(free_physical_frames(K + 0x20000), (0x80221, 0x88000));
    assert_eq!(free_physical_frames(K + 0x20fff), (0x80221, 0x88000));
}

#[test]
fn overlap_test_is_symmetric() {
    let ranges = [(0x1000u64, 0x3000u64), (0x2fff, 0x4000), (0x3000, 0x5000), (0x0, 0x1000), (0x1800, 0x1801)];
    for &(s1, e1) in ranges.iter() {
        for &(s2, e2) in ranges.iter() {
            let a = MemoryArea::new(s1, e1, HandlerBox::Linear(Linear::new(0)), MemoryAttr::new());
            let b = MemoryArea::new(s2, e2, HandlerBox::Linear(Linear::new(0)), MemoryAttr::new());
            assert_eq!(a.is_overlap_with(s2, e2), b.is_overlap_with(s1, e1));
        }
    }
}

#[test]
fn kernel_layout_checks() {
    assert!(kernel_layout_fits(&layout(), K + 0x6000, K + 0xa000));
    // boot stack inside the bss section
    assert!(!kernel_layout_fits(&layout(), K + 0xb000, K + 0xc000));
    // text section below the kernel half of the address space
    let mut low = layout();
    low.stext = 0x8020_0000;
    assert!(!kernel_layout_fits(&low, K + 0x6000, K + 0xa000));
    // data overlapping read-only data
    let mut over = layout();
    over.sdata = K + 0x4fff;
    assert!(!kernel_layout_fits(&over, K + 0x6000, K + 0xa000));
}
