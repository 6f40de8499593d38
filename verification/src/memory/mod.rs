pub mod frame_allocator;
pub mod paging;
pub mod memory_set;

use vstd::prelude::*;
use crate::consts::{MAX_PHYSICAL_PAGES, PHYSICAL_MEMORY_END, PHYSICAL_MEMORY_OFFSET};
use memory_set::{
    MemorySet, KernelLayout, kernel_layout_ok, kernel_section, kernel_areas_at, kernel_map,
    is_linear_area, linear_range_ok, kernel_section_ok, kernel_page_entry,
};
use memory_set::area::{first_page, end_page, pages_overlap, linear_map};
use memory_set::attr::MemoryAttr;
use memory_set::handler::{Linear, MemoryHandler};
use frame_allocator::{
    FirstFitAllocator, SegmentTreeAllocator, lowest_free, lemma_lowest_free, mark, fits,
    block_len,
};

verus! {

broadcast use {
    SegmentTreeAllocator::lemma_used_len,
    FirstFitAllocator::lemma_slots_len,
    Linear::lemma_new_spec,
};

/// The allocator `frames` can hand out one more frame.
pub open spec fn can_alloc_frame(frames: &SegmentTreeAllocator) -> bool {
    &&& frames.wf()
    &&& lowest_free(frames.used()) < frames.leaf_count()
    &&& frames.frame_offset() + frames.leaf_count() + lowest_free(frames.used()) <= usize::MAX
}

/// Takes the lowest free frame from `frames` and returns its number.
pub fn alloc_frame(frames: &mut SegmentTreeAllocator) -> (r: Option<usize>)
    requires
        can_alloc_frame(&*old(frames)),
    ensures
        r matches Some(p) && p == old(frames).frame_offset() + lowest_free(old(frames).used()),
        final(frames).wf(),
        final(frames).leaf_count() == old(frames).leaf_count(),
        final(frames).frame_offset() == old(frames).frame_offset(),
        final(frames).frame_count() == old(frames).frame_count(),
        final(frames).used() == old(frames).used().update(lowest_free(old(frames).used()), true),
{
    proof {
        lemma_lowest_free(frames.used());
        let j = lowest_free(frames.used());
        assert(!frames.used()[j]);
        assert forall|i: int|
            0 <= i < frames.leaf_count() && !#[trigger] frames.used()[i] && (forall|k: int|
                0 <= k < i ==> frames.used()[k]) implies frames.frame_offset()
            + frames.leaf_count() + i <= usize::MAX by {
            if i > j {
                assert(frames.used()[j]);
            }
        }
    }
    let ppn = frames.allocate();
    proof {
        lemma_lowest_free(old(frames).used());
    }
    Some(ppn)
}

/// Returns frame `ppn` to `frames`.
pub fn dealloc_frame(frames: &mut SegmentTreeAllocator, ppn: usize)
    requires
        old(frames).wf(),
        old(frames).frame_offset() <= ppn < old(frames).frame_offset() + old(frames).leaf_count(),
        ppn + old(frames).leaf_count() <= usize::MAX,
        old(frames).used()[ppn - old(frames).frame_offset()],
    ensures
        final(frames).wf(),
        final(frames).leaf_count() == old(frames).leaf_count(),
        final(frames).frame_offset() == old(frames).frame_offset(),
        final(frames).frame_count() == old(frames).frame_count(),
        final(frames).used() == old(frames).used().update(ppn - old(frames).frame_offset(), false),
{
    frames.dealloc(ppn)
}

/// Sets up `allocator` to manage the frames `[l, r)`.
pub fn init_allocator(allocator: &mut FirstFitAllocator, l: usize, r: usize)
    requires
        old(allocator).wf(),
        1 <= l <= r,
        r - l + 1 <= MAX_PHYSICAL_PAGES,
    ensures
        final(allocator).wf(),
        final(allocator).frame_offset() == l - 1,
        final(allocator).slot_end() == r - l + 1,
        final(allocator).slots() == mark(old(allocator).slots(), 1, r - l, false),
{
    allocator.init(l, r);
}

/// Takes the first run of `cnt` free frames from `allocator` (see
/// `FirstFitAllocator::allocate`) and returns the number of its first frame.
pub fn alloc_frames(allocator: &mut FirstFitAllocator, cnt: usize) -> (r: Option<usize>)
    requires
        old(allocator).wf(),
    ensures
        final(allocator).wf(),
        final(allocator).slot_end() == old(allocator).slot_end(),
        final(allocator).frame_offset() == old(allocator).frame_offset(),
        match r {
            Some(p) => {
                let s = p - old(allocator).frame_offset();
                &&& old(allocator).frame_offset() <= p
                &&& fits(old(allocator).slots(), old(allocator).slot_end(), s, block_len(cnt as int))
                &&& forall|t: int|
                    1 <= t < s ==> !fits(
                        old(allocator).slots(),
                        old(allocator).slot_end(),
                        t,
                        block_len(cnt as int),
                    )
                &&& final(allocator).slots() == mark(
                    old(allocator).slots(),
                    s,
                    block_len(cnt as int),
                    true,
                )
            },
            None => {
                &&& forall|t: int|
                    !fits(old(allocator).slots(), old(allocator).slot_end(), t, block_len(cnt as int))
                &&& final(allocator).slots() == old(allocator).slots()
            },
        },
{
    let p = allocator.allocate(cnt);
    if !p.is_none() {
        return Some(p.unwrap());
    }
    return None;
}

/// Returns the `cnt` frames starting at frame `ppn` to `allocator`.
pub fn dealloc_frames(allocator: &mut FirstFitAllocator, ppn: usize, cnt: usize)
    requires
        old(allocator).wf(),
        old(allocator).frame_offset() <= ppn,
        ppn - old(allocator).frame_offset() + cnt <= usize::MAX,
        ppn - old(allocator).frame_offset() + cnt <= MAX_PHYSICAL_PAGES || cnt == 0,
        forall|k: int|
            ppn - old(allocator).frame_offset() <= k < ppn - old(allocator).frame_offset() + cnt
                ==> #[trigger] old(allocator).slots()[k],
    ensures
        final(allocator).wf(),
        final(allocator).slot_end() == old(allocator).slot_end(),
        final(allocator).frame_offset() == old(allocator).frame_offset(),
        final(allocator).slots() == mark(
            old(allocator).slots(),
            ppn - old(allocator).frame_offset(),
            cnt as int,
            false,
        ),
{
    allocator.dealloc(ppn, cnt);
}

/// Kernel virtual address through which physical address `pa` is reached.
pub fn access_pa_via_va(pa: u64) -> (va: u64)
    requires
        pa + PHYSICAL_MEMORY_OFFSET <= u64::MAX,
    ensures
        va == pa + PHYSICAL_MEMORY_OFFSET,
{
    pa + PHYSICAL_MEMORY_OFFSET
}


/// The kernel's areas and the boot stack `[bootstack, bootstacktop)` can be
/// mapped together.
pub open spec fn kernel_remap_ok(layout: KernelLayout, bootstack: u64, bootstacktop: u64) -> bool {
    &&& kernel_layout_ok(Seq::empty(), layout)
    &&& bootstack <= bootstacktop
    &&& bootstacktop >= 1
    &&& first_page(bootstack) < end_page(bootstacktop) ==> first_page(bootstack) * 4096
        >= PHYSICAL_MEMORY_OFFSET
    &&& forall|i: int|
        0 <= i < 5 ==> !pages_overlap(
            first_page(#[trigger] kernel_section(layout, i).0),
            end_page(kernel_section(layout, i).1),
            first_page(bootstack),
            end_page(bootstacktop),
        )
}

/// The kernel's address space: its sections and physical memory (see
/// `MemorySet::new`) plus the boot stack, all mapped linearly.
pub fn kernel_remap(
    layout: &KernelLayout,
    bootstack: u64,
    bootstacktop: u64,
    frames: &mut SegmentTreeAllocator,
) -> (s: MemorySet)
    requires
        can_alloc_frame(&*old(frames)),
        kernel_remap_ok(*layout, bootstack, bootstacktop),
    ensures
        s.wf(),
        s.areas().len() == 6,
        kernel_areas_at(s.areas(), 0, *layout, 5),
        is_linear_area(s.areas()[5], bootstack, bootstacktop),
        !s.areas()[5].area_attr().is_user(),
        !s.areas()[5].area_attr().is_readonly(),
        !s.areas()[5].area_attr().is_execute(),
        s.page_table() == kernel_map(*layout).union_prefer_right(
            linear_map(
                first_page(bootstack),
                end_page(bootstacktop),
                PHYSICAL_MEMORY_OFFSET,
                false,
                false,
                false,
            ),
        ),
        s.root() == old(frames).frame_offset() + lowest_free(old(frames).used()),
        forall|i: int, k: u64|
            #![trigger s.page_table()[k], kernel_section(*layout, i)]
            0 <= i < 5 && first_page(kernel_section(*layout, i).0) <= k < end_page(
                kernel_section(*layout, i).1,
            ) ==> s.page_table().contains_key(k) && s.page_table()[k] == kernel_page_entry(
                k,
                i >= 2,
                i == 0,
            ),
        final(frames).wf(),
        final(frames).leaf_count() == old(frames).leaf_count(),
        final(frames).frame_offset() == old(frames).frame_offset(),
        final(frames).frame_count() == old(frames).frame_count(),
        final(frames).used() == old(frames).used().update(lowest_free(old(frames).used()), true),
{
    let mut memory_set = MemorySet::new(layout, frames);
    proof {
        let areas = memory_set.areas();
        assert forall|k: int| 0 <= k < areas.len() implies !pages_overlap(
            first_page(#[trigger] areas[k].start_addr()),
            end_page(areas[k].end_addr()),
            first_page(bootstack),
            end_page(bootstacktop),
        ) by {
            assert(areas[0 + k] == areas[k]);
            assert(is_linear_area(areas[0 + k], kernel_section(*layout, k).0, kernel_section(*layout, k).1));
        }
        assert(linear_range_ok(areas, bootstack, bootstacktop));
    }
    let ghost before = memory_set.areas();
    memory_set.push_linear(bootstack, bootstacktop, MemoryAttr::new(), frames);
    proof {
        let after = memory_set.areas();
        assert forall|j: int| 0 <= j < 5 implies after[j] == before[j] by {
            assert(after.subrange(0, 5)[j] == after[j]);
        }
        assert(kernel_areas_at(after, 0, *layout, 5)) by {
            assert forall|j: int| 0 <= j < 5 implies #[trigger] after[0 + j] == before[0 + j] by {
                assert(after[j] == before[j]);
            }
        }
    }
    proof {
        let bm = linear_map(
            first_page(bootstack),
            end_page(bootstacktop),
            PHYSICAL_MEMORY_OFFSET,
            false,
            false,
            false,
        );
        assert forall|i: int, k: u64|
            #![trigger memory_set.page_table()[k], kernel_section(*layout, i)]
            0 <= i < 5 && first_page(kernel_section(*layout, i).0) <= k < end_page(
                kernel_section(*layout, i).1,
            ) implies memory_set.page_table().contains_key(k) && memory_set.page_table()[k]
            == kernel_page_entry(k, i >= 2, i == 0) by {
            assert(kernel_map(*layout)[k] == kernel_page_entry(k, i >= 2, i == 0));
            assert(!pages_overlap(
                first_page(kernel_section(*layout, i).0),
                end_page(kernel_section(*layout, i).1),
                first_page(bootstack),
                end_page(bootstacktop),
            ));
            assert(!bm.contains_key(k));
        }
    }
    memory_set
}


/// A linear handler for the kernel's offset maps the kernel address of a
/// physical address back to that physical address.
pub proof fn lemma_linear_undoes_access_pa_via_va(pa: u64, offset: int, used: Seq<bool>)
    requires
        pa + PHYSICAL_MEMORY_OFFSET <= u64::MAX,
    ensures
        Linear::new_spec(PHYSICAL_MEMORY_OFFSET).can_map(
            (pa + PHYSICAL_MEMORY_OFFSET) as u64,
            offset,
            used,
        ),
        Linear::new_spec(PHYSICAL_MEMORY_OFFSET).target(
            (pa + PHYSICAL_MEMORY_OFFSET) as u64,
            offset,
            used,
        ) == pa,
{
}


/// The range `[s, e)` is well formed and its first page lies at or above the
/// kernel's offset.
fn linear_range_fits(s: u64, e: u64) -> (r: bool)
    ensures
        r == (s <= e && e >= 1 && (first_page(s) < end_page(e) ==> first_page(s) * 4096
            >= PHYSICAL_MEMORY_OFFSET)),
{
    if s > e || e < 1 {
        return false;
    }
    let first = s / 4096;
    let end = (e - 1) / 4096 + 1;
    if first < end {
        assert(first * 4096 <= s) by (nonlinear_arith)
            requires
                first == s / 4096,
        ;
        first * 4096 >= PHYSICAL_MEMORY_OFFSET
    } else {
        true
    }
}

/// The page ranges of `[s1, e1)` and `[s2, e2)` are apart.
fn ranges_apart(s1: u64, e1: u64, s2: u64, e2: u64) -> (r: bool)
    requires
        e1 >= 1,
        e2 >= 1,
    ensures
        r == !pages_overlap(first_page(s1), end_page(e1), first_page(s2), end_page(e2)),
{
    let p1 = s1 / 4096;
    let p2 = (e1 - 1) / 4096 + 1;
    let p3 = s2 / 4096;
    let p4 = (e2 - 1) / 4096 + 1;
    (p1 >= p4) || (p2 <= p3)
}

/// Whether `kernel_remap(layout, bootstack, bootstacktop, ..)` may be called
/// as far as the address ranges go.
pub fn kernel_layout_fits(layout: &KernelLayout, bootstack: u64, bootstacktop: u64) -> (r: bool)
    ensures
        r == kernel_remap_ok(*layout, bootstack, bootstacktop),
{
    if layout.end / 4096 >= u64::MAX / 4096 {
        assert(!((layout.end / 4096 + 1) * 4096 <= u64::MAX));
        return false;
    }
    let ghost l = *layout;
    let s0 = layout.stext;
    let e0 = layout.etext;
    let s1 = layout.srodata;
    let e1 = layout.erodata;
    let s2 = layout.sdata;
    let e2 = layout.edata;
    let s3 = layout.sbss;
    let e3 = layout.ebss;
    let s4 = (layout.end / 4096 + 1) * 4096;
    let e4 = access_pa_via_va(PHYSICAL_MEMORY_END);
    assert(kernel_section(l, 0) == (s0, e0));
    assert(kernel_section(l, 1) == (s1, e1));
    assert(kernel_section(l, 2) == (s2, e2));
    assert(kernel_section(l, 3) == (s3, e3));
    assert(kernel_section(l, 4) == (s4, e4));
    let ok = linear_range_fits(s0, e0) && linear_range_fits(s1, e1) && linear_range_fits(s2, e2)
        && linear_range_fits(s3, e3) && linear_range_fits(s4, e4) && linear_range_fits(
        bootstack,
        bootstacktop,
    );
    if !ok {
        if !linear_range_fits(s0, e0) {
            assert(!kernel_section_ok(Seq::empty(), l, 0));
        } else if !linear_range_fits(s1, e1) {
            assert(!kernel_section_ok(Seq::empty(), l, 1));
        } else if !linear_range_fits(s2, e2) {
            assert(!kernel_section_ok(Seq::empty(), l, 2));
        } else if !linear_range_fits(s3, e3) {
            assert(!kernel_section_ok(Seq::empty(), l, 3));
        } else if !linear_range_fits(s4, e4) {
            assert(!kernel_section_ok(Seq::empty(), l, 4));
        }
        return false;
    }
    let a10 = ranges_apart(s0, e0, s1, e1);
    let a20 = ranges_apart(s0, e0, s2, e2);
    let a21 = ranges_apart(s1, e1, s2, e2);
    let a30 = ranges_apart(s0, e0, s3, e3);
    let a31 = ranges_apart(s1, e1, s3, e3);
    let a32 = ranges_apart(s2, e2, s3, e3);
    let a40 = ranges_apart(s0, e0, s4, e4);
    let a41 = ranges_apart(s1, e1, s4, e4);
    let a42 = ranges_apart(s2, e2, s4, e4);
    let a43 = ranges_apart(s3, e3, s4, e4);
    let b0 = ranges_apart(s0, e0, bootstack, bootstacktop);
    let b1 = ranges_apart(s1, e1, bootstack, bootstacktop);
    let b2 = ranges_apart(s2, e2, bootstack, bootstacktop);
    let b3 = ranges_apart(s3, e3, bootstack, bootstacktop);
    let b4 = ranges_apart(s4, e4, bootstack, bootstacktop);
    let r = a10 && a20 && a21 && a30 && a31 && a32 && a40 && a41 && a42 && a43 && b0 && b1 && b2
        && b3 && b4;
    proof {
        let empty = Seq::<memory_set::area::MemoryArea>::empty();
        if r {
            assert forall|i: int| 0 <= i < 5 implies #[trigger] kernel_section_ok(empty, l, i) by {
                assert(linear_range_ok(empty, kernel_section(l, i).0, kernel_section(l, i).1));
            }
            assert(kernel_layout_ok(empty, l));
        } else {
            assert(kernel_section(l, 0).0 == s0 && kernel_section(l, 1).0 == s1 && kernel_section(
                l,
                2,
            ).0 == s2 && kernel_section(l, 3).0 == s3 && kernel_section(l, 4).0 == s4);
            if !a10 {
                assert(!kernel_section_ok(empty, l, 1));
            } else if !a20 || !a21 {
                assert(!kernel_section_ok(empty, l, 2));
            } else if !a30 || !a31 || !a32 {
                assert(!kernel_section_ok(empty, l, 3));
            } else if !a40 || !a41 || !a42 || !a43 {
                assert(!kernel_section_ok(empty, l, 4));
            } else {
                assert(!kernel_remap_ok(l, bootstack, bootstacktop));
            }
        }
    }
    r
}

} // verus!
