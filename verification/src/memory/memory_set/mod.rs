pub mod attr;
pub mod handler;
pub mod area;

use vstd::prelude::*;
use crate::memory::paging::{PageTableImpl, PageEntry};
use crate::memory::frame_allocator::{SegmentTreeAllocator, lowest_free};
use crate::memory::can_alloc_frame;
use crate::consts::{PAGE_SIZE, PHYSICAL_MEMORY_END, PHYSICAL_MEMORY_OFFSET};
use crate::memory::access_pa_via_va;
use area::{
    MemoryArea, first_page, end_page, pages_overlap, map_pages, can_map_pages, pages_unmapped,
    lemma_map_pages_dom, linear_map, lemma_linear_can_map, lemma_linear_map_pages,
};
use attr::MemoryAttr;
use handler::{HandlerBox, Linear};

verus! {

broadcast use SegmentTreeAllocator::lemma_used_len;

/// Page `k` lies in area `a`.
pub open spec fn in_area(a: MemoryArea, k: int) -> bool {
    first_page(a.start_addr()) <= k < end_page(a.end_addr())
}

/// The pages of areas `a` and `b` are not apart.
pub open spec fn areas_overlap(a: MemoryArea, b: MemoryArea) -> bool {
    pages_overlap(
        first_page(a.start_addr()),
        end_page(a.end_addr()),
        first_page(b.start_addr()),
        end_page(b.end_addr()),
    )
}

/// No area of `areas` overlaps the address range `[start, end)`.
pub open spec fn range_free(areas: Seq<MemoryArea>, start: u64, end: u64) -> bool {
    forall|i: int|
        0 <= i < areas.len() ==> !pages_overlap(
            first_page(#[trigger] areas[i].start_addr()),
            end_page(areas[i].end_addr()),
            first_page(start),
            end_page(end),
        )
}

/// The memory areas of an address space, and the page table that maps them.
pub struct MemorySet {
    areas: Vec<MemoryArea>,
    page_table: PageTableImpl,
}

impl MemorySet {
    /// The areas, in the order they were pushed.
    pub closed spec fn areas(&self) -> Seq<MemoryArea> {
        self.areas@
    }

    /// Page number to page table entry.
    pub closed spec fn page_table(&self) -> Map<u64, PageEntry> {
        self.page_table@
    }

    /// Frame that holds the root of the page table.
    pub closed spec fn root(&self) -> usize {
        self.page_table.root()
    }

    /// Every area ends above address 0, no two areas overlap, and exactly the
    /// pages of the areas are mapped.
    pub open spec fn wf(&self) -> bool {
        &&& forall|i: int| 0 <= i < self.areas().len() ==> #[trigger] self.areas()[i].end_addr() >= 1
        &&& forall|i: int, j: int|
            0 <= i < self.areas().len() && 0 <= j < self.areas().len() && i != j
                ==> !areas_overlap(#[trigger] self.areas()[i], #[trigger] self.areas()[j])
        &&& forall|k: u64|
            #[trigger] self.page_table().contains_key(k) <==> exists|i: int|
                0 <= i < self.areas().len() && in_area(#[trigger] self.areas()[i], k as int)
    }

    /// A set holding the kernel's areas (see `map_kernel_and_physical_memory`),
    /// whose page table root is taken from `frames`.
    pub fn new(layout: &KernelLayout, frames: &mut SegmentTreeAllocator) -> (s: Self)
        requires
            can_alloc_frame(&*old(frames)),
            kernel_layout_ok(Seq::empty(), *layout),
        ensures
            s.wf(),
            s.areas().len() == 5,
            kernel_areas_at(s.areas(), 0, *layout, 5),
            s.page_table() == kernel_map(*layout),
            forall|i: int, k: u64|
                #![trigger s.page_table()[k], kernel_section(*layout, i)]
                0 <= i < 5 && first_page(kernel_section(*layout, i).0) <= k < end_page(
                    kernel_section(*layout, i).1,
                ) ==> s.page_table().contains_key(k) && s.page_table()[k] == kernel_page_entry(
                    k,
                    i >= 2,
                    i == 0,
                ),
            s.root() == old(frames).frame_offset() + lowest_free(old(frames).used()),
            final(frames).wf(),
            final(frames).leaf_count() == old(frames).leaf_count(),
            final(frames).frame_offset() == old(frames).frame_offset(),
            final(frames).frame_count() == old(frames).frame_count(),
            final(frames).used() == old(frames).used().update(lowest_free(old(frames).used()), true),
    {
        let mut memory_set = MemorySet { areas: Vec::new(), page_table: PageTableImpl::new_bare(frames) };
        assert(memory_set.areas() =~= Seq::<MemoryArea>::empty());
        memory_set.map_kernel_and_physical_memory(layout, frames);
        assert(memory_set.areas().subrange(0, 0) =~= Seq::<MemoryArea>::empty());
        assert(memory_set.page_table() =~= kernel_map(*layout));
        proof {
            lemma_kernel_map_entries(Seq::empty(), *layout);
        }
        memory_set
    }

    /// The page table of the set.
    pub fn page_table_ref(&self) -> (r: &PageTableImpl)
        ensures
            r@ == self.page_table(),
            r.root() == self.root(),
    {
        &self.page_table
    }

    /// Number of areas.
    pub fn area_count(&self) -> (r: usize)
        ensures
            r == self.areas().len(),
    {
        self.areas.len()
    }

    /// No area of the set overlaps `[start, end)`.
    pub fn test_free_area(&self, start: u64, end: u64) -> (r: bool)
        requires
            self.wf(),
            end >= 1 || self.areas().len() == 0,
        ensures
            r == range_free(self.areas(), start, end),
    {
        let mut i: usize = 0;
        while i < self.areas.len()
            invariant
                0 <= i <= self.areas().len(),
                self.wf(),
                end >= 1 || self.areas().len() == 0,
                range_free(self.areas().subrange(0, i as int), start, end),
            decreases self.areas().len() - i,
        {
            if self.areas[i].is_overlap_with(start, end) {
                return false;
            }
            assert forall|j: int| 0 <= j < i + 1 implies !pages_overlap(
                first_page(#[trigger] self.areas().subrange(0, i + 1)[j].start_addr()),
                end_page(self.areas().subrange(0, i + 1)[j].end_addr()),
                first_page(start),
                end_page(end),
            ) by {
                if j < i {
                    assert(self.areas().subrange(0, i as int)[j] == self.areas()[j]);
                }
            }
            i = i + 1;
        }
        assert(self.areas().subrange(0, i as int) =~= self.areas());
        true
    }

    /// Adds the area `[start, end)` mapped by `handler` with permissions
    /// `attr`, and maps its pages.
    pub fn push(
        &mut self,
        start: u64,
        end: u64,
        attr: MemoryAttr,
        handler: HandlerBox,
        frames: &mut SegmentTreeAllocator,
    )
        requires
            old(self).wf(),
            start <= end,
            end >= 1,
            range_free(old(self).areas(), start, end),
            old(frames).wf(),
            can_map_pages(
                handler,
                first_page(start),
                end_page(end),
                old(frames).frame_offset(),
                old(frames).used(),
            ),
        ensures
            final(self).wf(),
            final(self).areas().len() == old(self).areas().len() + 1,
            final(self).areas().subrange(0, old(self).areas().len() as int) == old(self).areas(),
            final(self).areas().last().start_addr() == start,
            final(self).areas().last().end_addr() == end,
            final(self).areas().last().area_handler() == handler,
            final(self).areas().last().area_attr() == attr,
            (final(self).page_table(), final(frames).used()) == map_pages(
                handler,
                attr,
                first_page(start),
                end_page(end),
                old(self).page_table(),
                old(frames).frame_offset(),
                old(frames).used(),
            ),
            final(self).root() == old(self).root(),
            final(frames).wf(),
            final(frames).leaf_count() == old(frames).leaf_count(),
            final(frames).frame_offset() == old(frames).frame_offset(),
            final(frames).frame_count() == old(frames).frame_count(),
    {
        let ghost old_areas = self.areas();
        let ghost old_pt = self.page_table();
        let ghost first = first_page(start);
        let ghost last = end_page(end);
        assert(pages_unmapped(old_pt, first, last)) by {
            assert forall|k: u64| first <= k < last implies !#[trigger] old_pt.contains_key(k) by {
                if old_pt.contains_key(k) {
                    let i = choose|i: int| 0 <= i < old_areas.len() && in_area(#[trigger] old_areas[i], k as int);
                    assert(!pages_overlap(
                        first_page(old_areas[i].start_addr()),
                        end_page(old_areas[i].end_addr()),
                        first,
                        last,
                    ));
                }
            }
        }
        let area = MemoryArea::new(start, end, handler, attr);
        area.map(&mut self.page_table, frames);
        self.areas.push(area);
        proof {
            lemma_map_pages_dom(
                handler,
                attr,
                first,
                last,
                old_pt,
                old(frames).frame_offset(),
                old(frames).used(),
            );
            let areas = self.areas();
            let n = old_areas.len() as int;
            let newpt = map_pages(
                handler,
                attr,
                first,
                last,
                old_pt,
                old(frames).frame_offset(),
                old(frames).used(),
            ).0;
            assert(self.page_table() == newpt);
            assert(areas.subrange(0, n) =~= old_areas);
            assert forall|i: int, j: int|
                0 <= i < areas.len() && 0 <= j < areas.len() && i != j implies !areas_overlap(
                #[trigger] areas[i],
                #[trigger] areas[j],
            ) by {
                if i == n {
                    assert(areas[j] == old_areas[j]);
                } else if j == n {
                    assert(areas[i] == old_areas[i]);
                } else {
                    assert(areas[i] == old_areas[i]);
                    assert(areas[j] == old_areas[j]);
                }
            }
            assert forall|k: u64|
                #[trigger] self.page_table().contains_key(k) <==> exists|i: int|
                    0 <= i < areas.len() && in_area(#[trigger] areas[i], k as int) by {
                assert(newpt.contains_key(k) <==> (old_pt.contains_key(k) || first <= k < last));
                if self.page_table().contains_key(k) {
                    if first <= k < last {
                        assert(in_area(areas[n], k as int));
                    } else {
                        assert(old_pt.contains_key(k));
                        let i = choose|i: int| 0 <= i < old_areas.len() && in_area(#[trigger] old_areas[i], k as int);
                        assert(areas[i] == old_areas[i]);
                    }
                }
                if exists|i: int| 0 <= i < areas.len() && in_area(#[trigger] areas[i], k as int) {
                    let i = choose|i: int| 0 <= i < areas.len() && in_area(#[trigger] areas[i], k as int);
                    if i < n {
                        assert(areas[i] == old_areas[i]);
                        assert(old_pt.contains_key(k));
                    }
                }
            }
        }
    }
}


/// Addresses of the kernel image's sections, as the linker placed them.
#[derive(Clone, Copy, Debug)]
pub struct KernelLayout {
    pub stext: u64,
    pub etext: u64,
    pub srodata: u64,
    pub erodata: u64,
    pub sdata: u64,
    pub edata: u64,
    pub sbss: u64,
    pub ebss: u64,
    pub end: u64,
}

/// Address range of the `i`-th area that `map_kernel_and_physical_memory`
/// pushes: text, read-only data, data, bss, and the physical memory after the
/// kernel image.
pub open spec fn kernel_section(layout: KernelLayout, i: int) -> (u64, u64) {
    if i == 0 {
        (layout.stext, layout.etext)
    } else if i == 1 {
        (layout.srodata, layout.erodata)
    } else if i == 2 {
        (layout.sdata, layout.edata)
    } else if i == 3 {
        (layout.sbss, layout.ebss)
    } else {
        (
            ((layout.end / PAGE_SIZE + 1) * PAGE_SIZE) as u64,
            (PHYSICAL_MEMORY_END + PHYSICAL_MEMORY_OFFSET) as u64,
        )
    }
}

/// The `i`-th kernel area is read-only (text and read-only data).
pub open spec fn kernel_section_readonly(i: int) -> bool {
    i <= 1
}

/// The `i`-th kernel area is executable (text).
pub open spec fn kernel_section_execute(i: int) -> bool {
    i == 0
}

/// Page table entries of the `i`-th kernel area.
pub open spec fn kernel_section_map(layout: KernelLayout, i: int) -> Map<u64, PageEntry> {
    linear_map(
        first_page(kernel_section(layout, i).0),
        end_page(kernel_section(layout, i).1),
        PHYSICAL_MEMORY_OFFSET,
        false,
        kernel_section_readonly(i),
        kernel_section_execute(i),
    )
}

/// Page table entries of all five kernel areas.
pub open spec fn kernel_map(layout: KernelLayout) -> Map<u64, PageEntry> {
    kernel_section_map(layout, 0).union_prefer_right(kernel_section_map(layout, 1)).union_prefer_right(
        kernel_section_map(layout, 2),
    ).union_prefer_right(kernel_section_map(layout, 3)).union_prefer_right(
        kernel_section_map(layout, 4),
    )
}

/// The range `[start, end)` can be pushed with a linear handler for the
/// kernel's offset: it is well formed, its first page lies in the kernel half
/// of the address space, and it overlaps none of `areas`.
pub open spec fn linear_range_ok(areas: Seq<MemoryArea>, start: u64, end: u64) -> bool {
    &&& start <= end
    &&& end >= 1
    &&& range_free(areas, start, end)
    &&& first_page(start) < end_page(end) ==> first_page(start) * PAGE_SIZE
        >= PHYSICAL_MEMORY_OFFSET
}

/// The `i`-th kernel area can be pushed after `areas` and the kernel areas before it.
pub open spec fn kernel_section_ok(areas: Seq<MemoryArea>, layout: KernelLayout, i: int) -> bool {
    &&& linear_range_ok(areas, kernel_section(layout, i).0, kernel_section(layout, i).1)
    &&& forall|j: int|
        0 <= j < i ==> !pages_overlap(
            first_page(#[trigger] kernel_section(layout, j).0),
            end_page(kernel_section(layout, j).1),
            first_page(kernel_section(layout, i).0),
            end_page(kernel_section(layout, i).1),
        )
}

/// All five kernel areas can be pushed after `areas`.
pub open spec fn kernel_layout_ok(areas: Seq<MemoryArea>, layout: KernelLayout) -> bool {
    &&& (layout.end / PAGE_SIZE + 1) * PAGE_SIZE <= u64::MAX
    &&& forall|i: int| 0 <= i < 5 ==> #[trigger] kernel_section_ok(areas, layout, i)
}

/// Area `a` is `[start, end)`, mapped linearly for the kernel's offset.
pub open spec fn is_linear_area(a: MemoryArea, start: u64, end: u64) -> bool {
    &&& a.start_addr() == start
    &&& a.end_addr() == end
    &&& a.area_handler() matches HandlerBox::Linear(l) && l.linear_offset() == PHYSICAL_MEMORY_OFFSET
}

/// `areas[n + j]` is the `j`-th kernel area, for `j < count`.
pub open spec fn kernel_areas_at(areas: Seq<MemoryArea>, n: int, layout: KernelLayout, count: int) -> bool {
    forall|j: int|
        0 <= j < count ==> {
            &&& is_linear_area(
                #[trigger] areas[n + j],
                kernel_section(layout, j).0,
                kernel_section(layout, j).1,
            )
            &&& !areas[n + j].area_attr().is_user()
            &&& areas[n + j].area_attr().is_readonly() == kernel_section_readonly(j)
            &&& areas[n + j].area_attr().is_execute() == kernel_section_execute(j)
        }
}

impl MemorySet {
    /// Pushes `[start, end)` with a linear handler for the kernel's offset.
    pub(crate) fn push_linear(&mut self, start: u64, end: u64, attr: MemoryAttr, frames: &mut SegmentTreeAllocator)
        requires
            old(self).wf(),
            old(frames).wf(),
            linear_range_ok(old(self).areas(), start, end),
        ensures
            final(self).wf(),
            final(self).areas().len() == old(self).areas().len() + 1,
            final(self).areas().subrange(0, old(self).areas().len() as int) == old(self).areas(),
            is_linear_area(final(self).areas().last(), start, end),
            final(self).areas().last().area_attr() == attr,
            final(self).page_table() == old(self).page_table().union_prefer_right(
                linear_map(
                    first_page(start),
                    end_page(end),
                    PHYSICAL_MEMORY_OFFSET,
                    attr.is_user(),
                    attr.is_readonly(),
                    attr.is_execute(),
                ),
            ),
            final(self).root() == old(self).root(),
            final(frames).wf(),
            final(frames).used() == old(frames).used(),
            final(frames).leaf_count() == old(frames).leaf_count(),
            final(frames).frame_offset() == old(frames).frame_offset(),
            final(frames).frame_count() == old(frames).frame_count(),
    {
        let l = Linear::new(PHYSICAL_MEMORY_OFFSET);
        proof {
            assert((end_page(end) - 1) * PAGE_SIZE <= end - 1) by (nonlinear_arith)
                requires
                    end_page(end) - 1 == (end - 1) / 4096,
                    end >= 1,
            ;
            lemma_linear_can_map(
                l,
                first_page(start),
                end_page(end),
                frames.frame_offset(),
                frames.used(),
            );
            lemma_linear_map_pages(
                l,
                attr,
                first_page(start),
                end_page(end),
                self.page_table(),
                frames.frame_offset(),
                frames.used(),
            );
        }
        self.push(start, end, attr, HandlerBox::Linear(l), frames);
    }

    /// Pushes the kernel's text, read-only data, data and bss sections and the
    /// physical memory after the kernel image, each mapped linearly.
    pub fn map_kernel_and_physical_memory(&mut self, layout: &KernelLayout, frames: &mut SegmentTreeAllocator)
        requires
            old(self).wf(),
            old(frames).wf(),
            kernel_layout_ok(old(self).areas(), *layout),
        ensures
            final(self).wf(),
            final(self).areas().len() == old(self).areas().len() + 5,
            final(self).areas().subrange(0, old(self).areas().len() as int) == old(self).areas(),
            kernel_areas_at(final(self).areas(), old(self).areas().len() as int, *layout, 5),
            final(self).page_table() == old(self).page_table().union_prefer_right(kernel_map(*layout)),
            forall|i: int, k: u64|
                #![trigger final(self).page_table()[k], kernel_section(*layout, i)]
                0 <= i < 5 && first_page(kernel_section(*layout, i).0) <= k < end_page(
                    kernel_section(*layout, i).1,
                ) ==> final(self).page_table().contains_key(k) && final(self).page_table()[k] == kernel_page_entry(
                    k,
                    i >= 2,
                    i == 0,
                ),
            final(self).root() == old(self).root(),
            final(frames).wf(),
            final(frames).used() == old(frames).used(),
            final(frames).leaf_count() == old(frames).leaf_count(),
            final(frames).frame_offset() == old(frames).frame_offset(),
            final(frames).frame_count() == old(frames).frame_count(),
    {
        let ghost n = self.areas().len() as int;
        let ghost old_areas = self.areas();
        assert(old_areas.subrange(0, n) =~= old_areas);
        let ghost prev = self.areas();
        proof {
            self.lemma_kernel_section_free(old_areas, *layout, 0);
        }
        self.push_linear(layout.stext, layout.etext, MemoryAttr::new().set_readonly().set_execute(), frames);
        proof {
            lemma_kernel_area_pushed(prev, self.areas(), old_areas, *layout, 0);
            self.lemma_kernel_section_free(old_areas, *layout, 1);
        }
        let ghost prev = self.areas();
        self.push_linear(layout.srodata, layout.erodata, MemoryAttr::new().set_readonly(), frames);
        proof {
            lemma_kernel_area_pushed(prev, self.areas(), old_areas, *layout, 1);
            self.lemma_kernel_section_free(old_areas, *layout, 2);
        }
        let ghost prev = self.areas();
        self.push_linear(layout.sdata, layout.edata, MemoryAttr::new(), frames);
        proof {
            lemma_kernel_area_pushed(prev, self.areas(), old_areas, *layout, 2);
            self.lemma_kernel_section_free(old_areas, *layout, 3);
        }
        let ghost prev = self.areas();
        self.push_linear(layout.sbss, layout.ebss, MemoryAttr::new(), frames);
        proof {
            lemma_kernel_area_pushed(prev, self.areas(), old_areas, *layout, 3);
            self.lemma_kernel_section_free(old_areas, *layout, 4);
        }
        let ghost prev = self.areas();
        self.push_linear(
            (layout.end / PAGE_SIZE + 1) * PAGE_SIZE,
            access_pa_via_va(PHYSICAL_MEMORY_END),
            MemoryAttr::new(),
            frames,
        );
        proof {
            lemma_kernel_area_pushed(prev, self.areas(), old_areas, *layout, 4);
        }
        assert(self.page_table() =~= old(self).page_table().union_prefer_right(kernel_map(*layout)));
        proof {
            lemma_kernel_map_entries(old_areas, *layout);
        }
    }

    /// Kernel area `i` is free in a set that holds `old_areas` followed by the
    /// kernel areas before `i`.
    proof fn lemma_kernel_section_free(&self, old_areas: Seq<MemoryArea>, layout: KernelLayout, i: int)
        requires
            0 <= i < 5,
            kernel_layout_ok(old_areas, layout),
            self.areas().len() == old_areas.len() + i,
            self.areas().subrange(0, old_areas.len() as int) == old_areas,
            kernel_areas_at(self.areas(), old_areas.len() as int, layout, i),
        ensures
            linear_range_ok(self.areas(), kernel_section(layout, i).0, kernel_section(layout, i).1),
    {
        let n = old_areas.len() as int;
        let areas = self.areas();
        assert(kernel_section_ok(old_areas, layout, i));
        let (s, e) = kernel_section(layout, i);
        assert forall|k: int| 0 <= k < areas.len() implies !pages_overlap(
            first_page(#[trigger] areas[k].start_addr()),
            end_page(areas[k].end_addr()),
            first_page(s),
            end_page(e),
        ) by {
            if k < n {
                assert(areas[k] == old_areas[k]);
            } else {
                let j = k - n;
                assert(is_linear_area(areas[n + j], kernel_section(layout, j).0, kernel_section(layout, j).1));
            }
        }
    }
}


/// Pushing kernel area `i` after `old_areas` and the kernel areas before it
/// extends the run of kernel areas by one.
proof fn lemma_kernel_area_pushed(
    prev: Seq<MemoryArea>,
    after: Seq<MemoryArea>,
    old_areas: Seq<MemoryArea>,
    layout: KernelLayout,
    i: int,
)
    requires
        0 <= i < 5,
        prev.len() == old_areas.len() + i,
        prev.subrange(0, old_areas.len() as int) == old_areas,
        kernel_areas_at(prev, old_areas.len() as int, layout, i),
        after.len() == prev.len() + 1,
        after.subrange(0, prev.len() as int) == prev,
        is_linear_area(after.last(), kernel_section(layout, i).0, kernel_section(layout, i).1),
        !after.last().area_attr().is_user(),
        after.last().area_attr().is_readonly() == kernel_section_readonly(i),
        after.last().area_attr().is_execute() == kernel_section_execute(i),
    ensures
        after.subrange(0, old_areas.len() as int) == old_areas,
        kernel_areas_at(after, old_areas.len() as int, layout, i + 1),
{
    let n = old_areas.len() as int;
    assert forall|k: int| 0 <= k < prev.len() implies after[k] == prev[k] by {
        assert(after.subrange(0, prev.len() as int)[k] == after[k]);
    }
    assert(after.subrange(0, n) =~= old_areas) by {
        assert forall|k: int| 0 <= k < n implies after.subrange(0, n)[k] == old_areas[k] by {
            assert(prev.subrange(0, n)[k] == prev[k]);
        }
    }
    assert forall|j: int| 0 <= j < i + 1 implies {
        &&& is_linear_area(
            #[trigger] after[n + j],
            kernel_section(layout, j).0,
            kernel_section(layout, j).1,
        )
        &&& !after[n + j].area_attr().is_user()
        &&& after[n + j].area_attr().is_readonly() == kernel_section_readonly(j)
        &&& after[n + j].area_attr().is_execute() == kernel_section_execute(j)
    } by {
        if j < i {
            assert(after[n + j] == prev[n + j]);
        } else {
            assert(n + j == after.len() - 1);
        }
    }
}


/// Entry of kernel page `k`: mapped to `k * PAGE_SIZE - PHYSICAL_MEMORY_OFFSET`,
/// valid, readable, kernel-only, with the given write and execute permissions.
pub open spec fn kernel_page_entry(k: u64, writable: bool, executable: bool) -> PageEntry {
    PageEntry {
        target: area::page_floor_of((k * PAGE_SIZE - PHYSICAL_MEMORY_OFFSET) as u64),
        present: true,
        readable: true,
        writable: writable,
        executable: executable,
        user: false,
    }
}

/// In the kernel's map, every page of the text section is read-only and
/// executable, every page of the read-only data is read-only and not
/// executable, and every page of the data, the bss and the physical memory
/// after the kernel image is writable and not executable; each maps to its
/// address minus the kernel's offset.
pub proof fn lemma_kernel_map_entries(areas: Seq<MemoryArea>, layout: KernelLayout)
    requires
        kernel_layout_ok(areas, layout),
    ensures
        forall|i: int, k: u64|
            #![trigger kernel_map(layout)[k], kernel_section(layout, i)]
            0 <= i < 5 && first_page(kernel_section(layout, i).0) <= k < end_page(
                kernel_section(layout, i).1,
            ) ==> kernel_map(layout).contains_key(k) && kernel_map(layout)[k]
                == kernel_page_entry(k, i >= 2, i == 0),
{
    assert forall|i: int, k: u64|
        #![trigger kernel_map(layout)[k], kernel_section(layout, i)]
        0 <= i < 5 && first_page(kernel_section(layout, i).0) <= k < end_page(
            kernel_section(layout, i).1,
        ) implies kernel_map(layout).contains_key(k) && kernel_map(layout)[k]
        == kernel_page_entry(k, i >= 2, i == 0) by {
        assert forall|j: int| i < j < 5 implies !#[trigger] kernel_section_map(layout, j).contains_key(k) by {
            assert(kernel_section_ok(areas, layout, j));
            let si = kernel_section(layout, i);
            let sj = kernel_section(layout, j);
            assert(!pages_overlap(
                first_page(kernel_section(layout, i).0),
                end_page(kernel_section(layout, i).1),
                first_page(sj.0),
                end_page(sj.1),
            ));
        }
        assert(kernel_section_map(layout, i).contains_key(k));
        if i == 0 {
            assert(!kernel_section_map(layout, 1).contains_key(k));
            assert(!kernel_section_map(layout, 2).contains_key(k));
            assert(!kernel_section_map(layout, 3).contains_key(k));
            assert(!kernel_section_map(layout, 4).contains_key(k));
        } else if i == 1 {
            assert(!kernel_section_map(layout, 2).contains_key(k));
            assert(!kernel_section_map(layout, 3).contains_key(k));
            assert(!kernel_section_map(layout, 4).contains_key(k));
        } else if i == 2 {
            assert(!kernel_section_map(layout, 3).contains_key(k));
            assert(!kernel_section_map(layout, 4).contains_key(k));
        } else if i == 3 {
            assert(!kernel_section_map(layout, 4).contains_key(k));
        }
    }
}

} // verus!
