use vstd::prelude::*;
use crate::consts::PAGE_SIZE;
use crate::memory::paging::{PageTableImpl, PageEntry, fresh_entry, page_of};
use crate::memory::frame_allocator::{SegmentTreeAllocator, lowest_free, lemma_lowest_free};
use super::attr::MemoryAttr;
use super::handler::{MemoryHandler, HandlerBox, Linear, ByFrame};

verus! {

broadcast use SegmentTreeAllocator::lemma_used_len;

/// Number of the first page of the address range `[start, end)`.
pub open spec fn first_page(start: u64) -> int {
    (start / PAGE_SIZE) as int
}

/// One past the number of the last page of the address range `[start, end)`.
pub open spec fn end_page(end: u64) -> int {
    (end - 1) / (PAGE_SIZE as int) + 1
}

/// The page ranges `[p1, p2)` and `[p3, p4)` are not apart.
pub open spec fn pages_overlap(p1: int, p2: int, p3: int, p4: int) -> bool {
    !(p1 >= p4 || p2 <= p3)
}

/// The page table and the frames in use after `h` maps pages `[page, end)` one
/// by one in increasing order, with permissions `attr`.
pub open spec fn map_pages(
    h: HandlerBox,
    attr: MemoryAttr,
    page: int,
    end: int,
    pt: Map<u64, PageEntry>,
    offset: int,
    used: Seq<bool>,
) -> (Map<u64, PageEntry>, Seq<bool>)
    decreases end - page,
{
    if page >= end {
        (pt, used)
    } else {
        let va = (page * PAGE_SIZE) as u64;
        map_pages(
            h,
            attr,
            page + 1,
            end,
            pt.insert(page as u64, attr.applied(fresh_entry(h.target(va, offset, used)))),
            offset,
            h.used_after(va, offset, used),
        )
    }
}

/// `h` can map pages `[page, end)` one by one in increasing order.
pub open spec fn can_map_pages(h: HandlerBox, page: int, end: int, offset: int, used: Seq<bool>) -> bool
    decreases end - page,
{
    page >= end || {
        let va = (page * PAGE_SIZE) as u64;
        &&& h.can_map(va, offset, used)
        &&& can_map_pages(h, page + 1, end, offset, h.used_after(va, offset, used))
    }
}

/// None of the pages `[page, end)` is mapped in `pt`.
pub open spec fn pages_unmapped(pt: Map<u64, PageEntry>, page: int, end: int) -> bool {
    forall|k: u64| page <= k < end ==> !#[trigger] pt.contains_key(k)
}

proof fn lemma_page_address(page: int, end: u64)
    requires
        0 <= page < end_page(end),
        end >= 1,
    ensures
        0 <= page * PAGE_SIZE <= end - 1,
        page_of((page * PAGE_SIZE) as u64) == page,
{
    assert(page * 4096 <= end - 1) by (nonlinear_arith)
        requires
            page <= (end - 1) / 4096,
            end >= 1,
    ;
    assert((page * 4096) / 4096 == page) by (nonlinear_arith)
        requires
            page >= 0,
    ;
}

/// A range of virtual addresses `[start, end)`, the handler that maps its
/// pages, and their permissions.
#[derive(Clone, Debug)]
pub struct MemoryArea {
    start: u64,
    end: u64,
    handler: HandlerBox,
    attr: MemoryAttr,
}

impl MemoryArea {
    /// First address of the area.
    pub closed spec fn start_addr(&self) -> u64 {
        self.start
    }

    /// One past the last address of the area.
    pub closed spec fn end_addr(&self) -> u64 {
        self.end
    }

    /// Handler that maps the pages of the area.
    pub closed spec fn area_handler(&self) -> HandlerBox {
        self.handler
    }

    /// Permissions of the pages of the area.
    pub closed spec fn area_attr(&self) -> MemoryAttr {
        self.attr
    }

    /// The area over `[start_addr, end_addr)`.
    pub fn new(start_addr: u64, end_addr: u64, handler: HandlerBox, attr: MemoryAttr) -> (r: Self)
        ensures
            r.start_addr() == start_addr,
            r.end_addr() == end_addr,
            r.area_handler() == handler,
            r.area_attr() == attr,
    {
        MemoryArea { start: start_addr, end: end_addr, handler: handler, attr: attr }
    }

    /// Maps every page of the area into `pt`, in increasing order.
    pub fn map(&self, pt: &mut PageTableImpl, frames: &mut SegmentTreeAllocator)
        requires
            self.end_addr() >= 1,
            old(frames).wf(),
            pages_unmapped(old(pt)@, first_page(self.start_addr()), end_page(self.end_addr())),
            can_map_pages(
                self.area_handler(),
                first_page(self.start_addr()),
                end_page(self.end_addr()),
                old(frames).frame_offset(),
                old(frames).used(),
            ),
        ensures
            (final(pt)@, final(frames).used()) == map_pages(
                self.area_handler(),
                self.area_attr(),
                first_page(self.start_addr()),
                end_page(self.end_addr()),
                old(pt)@,
                old(frames).frame_offset(),
                old(frames).used(),
            ),
            final(pt).root() == old(pt).root(),
            final(frames).wf(),
            final(frames).leaf_count() == old(frames).leaf_count(),
            final(frames).frame_offset() == old(frames).frame_offset(),
            final(frames).frame_count() == old(frames).frame_count(),
    {
        let ghost first = first_page(self.start);
        let ghost last = end_page(self.end);
        let ghost offset = frames.frame_offset();
        let mut page = self.start / PAGE_SIZE;
        let end = (self.end - 1) / PAGE_SIZE + 1;
        while page < end
            invariant
                first <= page,
                page <= end || page == first,
                end == last,
                last == end_page(self.end),
                self.end >= 1,
                frames.wf(),
                frames.leaf_count() == old(frames).leaf_count(),
                frames.frame_offset() == offset,
                offset == old(frames).frame_offset(),
                frames.frame_count() == old(frames).frame_count(),
                pt.root() == old(pt).root(),
                pages_unmapped(pt@, page as int, last),
                can_map_pages(self.handler, page as int, last, offset, frames.used()),
                map_pages(self.handler, self.attr, page as int, last, pt@, offset, frames.used())
                    == map_pages(
                    self.handler,
                    self.attr,
                    first,
                    last,
                    old(pt)@,
                    offset,
                    old(frames).used(),
                ),
            decreases end - page,
        {
            proof {
                lemma_page_address(page as int, self.end);
            }
            let va = page * PAGE_SIZE;
            let ghost pt_before = pt@;
            self.handler.map(pt, va, &self.attr, frames);
            assert(pages_unmapped(pt@, page + 1, last)) by {
                assert forall|k: u64| page + 1 <= k < last implies !#[trigger] pt@.contains_key(k) by {
                    assert(!pt_before.contains_key(k));
                }
            }
            page = page + 1;
        }
    }

    /// Removes the mappings of every page of the area from `pt`.
    pub fn unmap(&self, pt: &mut PageTableImpl)
        requires
            self.end_addr() >= 1,
            forall|k: u64|
                first_page(self.start_addr()) <= k < end_page(self.end_addr()) ==> #[trigger] old(
                    pt,
                )@.contains_key(k),
        ensures
            final(pt)@ == old(pt)@.remove_keys(
                Set::new(
                    |k: u64|
                        first_page(self.start_addr()) <= k < end_page(self.end_addr()),
                ),
            ),
            final(pt).root() == old(pt).root(),
    {
        let ghost first = first_page(self.start);
        let ghost last = end_page(self.end);
        let mut page = self.start / PAGE_SIZE;
        let end = (self.end - 1) / PAGE_SIZE + 1;
        while page < end
            invariant
                first <= page,
                page <= end || page == first,
                end == last,
                last == end_page(self.end),
                self.end >= 1,
                pt.root() == old(pt).root(),
                forall|k: u64| page <= k < last ==> #[trigger] pt@.contains_key(k),
                pt@ == old(pt)@.remove_keys(Set::new(|k: u64| first <= k < page)),
            decreases end - page,
        {
            proof {
                lemma_page_address(page as int, self.end);
            }
            let va = page * PAGE_SIZE;
            self.handler.unmap(pt, va);
            assert(pt@ =~= old(pt)@.remove_keys(Set::new(|k: u64| first <= k < page + 1)));
            page = page + 1;
        }
        assert(pt@ =~= old(pt)@.remove_keys(Set::new(|k: u64| first <= k < last)));
    }

    /// The pages of the area and those of `[start_addr, end_addr)` are not apart.
    pub fn is_overlap_with(&self, start_addr: u64, end_addr: u64) -> (r: bool)
        requires
            self.end_addr() >= 1,
            end_addr >= 1,
        ensures
            r == pages_overlap(
                first_page(self.start_addr()),
                end_page(self.end_addr()),
                first_page(start_addr),
                end_page(end_addr),
            ),
    {
        let p1 = self.start / PAGE_SIZE;
        let p2 = (self.end - 1) / PAGE_SIZE + 1;
        let p3 = start_addr / PAGE_SIZE;
        let p4 = (end_addr - 1) / PAGE_SIZE + 1;
        !((p1 >= p4) || (p2 <= p3))
    }
}


/// The pages that `map_pages` adds are exactly `[page, end)`; other entries stay.
pub proof fn lemma_map_pages_dom(
    h: HandlerBox,
    attr: MemoryAttr,
    page: int,
    end: int,
    pt: Map<u64, PageEntry>,
    offset: int,
    used: Seq<bool>,
)
    requires
        0 <= page,
        end <= u64::MAX + 1,
    ensures
        forall|k: u64|
            #[trigger] map_pages(h, attr, page, end, pt, offset, used).0.contains_key(k) <==> (
            pt.contains_key(k) || page <= k < end),
        forall|k: u64|
            !(page <= k < end) && pt.contains_key(k) ==> #[trigger] map_pages(
                h,
                attr,
                page,
                end,
                pt,
                offset,
                used,
            ).0[k] == pt[k],
    decreases end - page,
{
    if page < end {
        let va = (page * PAGE_SIZE) as u64;
        let pt1 = pt.insert(page as u64, attr.applied(fresh_entry(h.target(va, offset, used))));
        let used1 = h.used_after(va, offset, used);
        lemma_map_pages_dom(h, attr, page + 1, end, pt1, offset, used1);
        assert(map_pages(h, attr, page, end, pt, offset, used) == map_pages(h, attr, page + 1, end, pt1, offset, used1));
    }
}

/// Entries that a linear handler with difference `lo` gives pages `[page, end)`.
pub open spec fn linear_map(
    page: int,
    end: int,
    lo: u64,
    user: bool,
    readonly: bool,
    execute: bool,
) -> Map<u64, PageEntry> {
    Map::new(
        |k: u64| page <= k < end,
        |k: u64|
            PageEntry {
                target: page_floor_of((k * PAGE_SIZE - lo) as u64),
                present: true,
                readable: true,
                writable: !readonly,
                executable: execute,
                user: user,
            },
    )
}

/// Start of the page or frame that holds `addr`.
pub open spec fn page_floor_of(addr: u64) -> u64 {
    crate::memory::paging::page_floor(addr)
}

/// A linear handler can map `[page, end)` when the first page lies at or
/// above its difference.
pub proof fn lemma_linear_can_map(l: Linear, page: int, end: int, offset: int, used: Seq<bool>)
    requires
        0 <= page,
        (end - 1) * PAGE_SIZE <= u64::MAX,
        page >= end || page * PAGE_SIZE >= l.linear_offset(),
    ensures
        can_map_pages(HandlerBox::Linear(l), page, end, offset, used),
    decreases end - page,
{
    if page < end {
        assert((page + 1) * PAGE_SIZE >= page * PAGE_SIZE) by (nonlinear_arith)
            requires
                page >= 0,
        ;
        assert(page * PAGE_SIZE <= (end - 1) * PAGE_SIZE) by (nonlinear_arith)
            requires
                page <= end - 1,
        ;
        lemma_linear_can_map(l, page + 1, end, offset, used);
    }
}

/// What a linear handler does to pages `[page, end)`: it adds `linear_map`
/// and takes no frame.
pub proof fn lemma_linear_map_pages(
    l: Linear,
    attr: MemoryAttr,
    page: int,
    end: int,
    pt: Map<u64, PageEntry>,
    offset: int,
    used: Seq<bool>,
)
    requires
        0 <= page,
        (end - 1) * PAGE_SIZE <= u64::MAX,
        can_map_pages(HandlerBox::Linear(l), page, end, offset, used),
    ensures
        map_pages(HandlerBox::Linear(l), attr, page, end, pt, offset, used) == (
            pt.union_prefer_right(
                linear_map(
                    page,
                    end,
                    l.linear_offset(),
                    attr.is_user(),
                    attr.is_readonly(),
                    attr.is_execute(),
                ),
            ),
            used,
        ),
    decreases end - page,
{
    let lm = linear_map(page, end, l.linear_offset(), attr.is_user(), attr.is_readonly(), attr.is_execute());
    if page >= end {
        assert(pt.union_prefer_right(lm) =~= pt);
    } else {
        let h = HandlerBox::Linear(l);
        let va = (page * PAGE_SIZE) as u64;
        assert(page * PAGE_SIZE <= (end - 1) * PAGE_SIZE) by (nonlinear_arith)
            requires
                page <= end - 1,
        ;
        assert(va == page * PAGE_SIZE);
        let pt1 = pt.insert(page as u64, attr.applied(fresh_entry(h.target(va, offset, used))));
        lemma_linear_map_pages(l, attr, page + 1, end, pt1, offset, used);
        let lm1 = linear_map(page + 1, end, l.linear_offset(), attr.is_user(), attr.is_readonly(), attr.is_execute());
        assert(pt1.union_prefer_right(lm1) =~= pt.union_prefer_right(lm));
    }
}


/// The overlap test is symmetric, and two non-empty page ranges overlap
/// exactly when some page lies in both.
pub proof fn lemma_pages_overlap(p1: int, p2: int, p3: int, p4: int)
    requires
        p1 < p2,
        p3 < p4,
    ensures
        pages_overlap(p1, p2, p3, p4) == pages_overlap(p3, p4, p1, p2),
        pages_overlap(p1, p2, p3, p4) <==> exists|k: int| #[trigger] in_both(p1, p2, p3, p4, k),
{
    if pages_overlap(p1, p2, p3, p4) {
        let k = if p1 <= p3 { p3 } else { p1 };
        assert(in_both(p1, p2, p3, p4, k));
    }
}

/// Page `k` lies in both `[p1, p2)` and `[p3, p4)`.
pub open spec fn in_both(p1: int, p2: int, p3: int, p4: int, k: int) -> bool {
    p1 <= k < p2 && p3 <= k < p4
}


proof fn lemma_frame_address(x: u64)
    requires
        x < 0x10_0000_0000_0000,
    ensures
        x << 12u64 == x * 4096,
        (x * 4096) % 4096 == 0,
{
    assert(x < 0x10_0000_0000_0000 ==> x << 12u64 == x * 4096) by (bit_vector);
    assert((x * 4096) % 4096 == 0) by (nonlinear_arith);
}

/// Mapping the pages `[page, end)` with a frame-backed handler gives every
/// page a frame of its own: each page maps to a frame that was free before
/// and is in use after, no two pages share a frame, and every frame that was
/// in use stays in use. (Frame numbers are taken to fit in 52 bits, so that
/// frame addresses do not wrap.)
pub proof fn lemma_by_frame_pages_get_fresh_frames(
    b: ByFrame,
    attr: MemoryAttr,
    page: int,
    end: int,
    pt: Map<u64, PageEntry>,
    offset: int,
    used: Seq<bool>,
    pt2: Map<u64, PageEntry>,
    used2: Seq<bool>,
)
    requires
        0 <= page,
        end <= u64::MAX + 1,
        0 <= offset,
        offset + used.len() <= 0x10_0000_0000_0000,
        can_map_pages(HandlerBox::ByFrame(b), page, end, offset, used),
        (pt2, used2) == map_pages(HandlerBox::ByFrame(b), attr, page, end, pt, offset, used),
    ensures
        used2.len() == used.len(),
        forall|j: int| 0 <= j < used.len() && used[j] ==> #[trigger] used2[j],
        forall|k: u64|
            page <= k < end ==> #[trigger] pt2.contains_key(k) && exists|j: int|
                0 <= j < used.len() && !used[j] && used2[j] && #[trigger] pt2[k].target == (offset
                    + j) * 4096,
        forall|k1: u64, k2: u64|
            page <= k1 < end && page <= k2 < end && k1 != k2 ==> #[trigger] pt2[k1].target
                != #[trigger] pt2[k2].target,
    decreases end - page,
{
    if page < end {
        let h = HandlerBox::ByFrame(b);
        let lf = lowest_free(used);
        lemma_lowest_free(used);
        let va = (page * PAGE_SIZE) as u64;
        let t0 = h.target(va, offset, used);
        lemma_frame_address((offset + lf) as u64);
        assert(t0 == (offset + lf) * 4096);
        let e0 = attr.applied(fresh_entry(t0));
        assert(e0.target == (offset + lf) * 4096);
        let pt1 = pt.insert(page as u64, e0);
        let used1 = used.update(lf, true);
        assert(h.used_after(va, offset, used) == used1);
        assert(map_pages(h, attr, page, end, pt, offset, used) == map_pages(h, attr, page + 1, end, pt1, offset, used1));
        lemma_by_frame_pages_get_fresh_frames(b, attr, page + 1, end, pt1, offset, used1, pt2, used2);
        lemma_map_pages_dom(h, attr, page + 1, end, pt1, offset, used1);
        let mp = map_pages(h, attr, page + 1, end, pt1, offset, used1);
        assert(pt2 == mp.0 && used2 == mp.1);
        assert(pt1.contains_key(page as u64));
        assert(mp.0[page as u64] == pt1[page as u64]);
        assert(pt2[page as u64] == e0);
        assert(used1[lf]);
        assert(used2[lf]);
        assert forall|k: u64|
            page <= k < end implies #[trigger] pt2.contains_key(k) && exists|j: int|
                0 <= j < used.len() && !used[j] && used2[j] && #[trigger] pt2[k].target == (offset
                    + j) * 4096 by {
            if k == page {
                assert(0 <= lf < used.len() && !used[lf] && used2[lf] && pt2[k].target == (offset + lf) * 4096);
            } else {
                assert(page + 1 <= k < end);
                assert(pt2.contains_key(k));
                let j = choose|j: int|
                    0 <= j < used1.len() && !used1[j] && used2[j] && #[trigger] pt2[k].target == (offset + j) * 4096;
                assert(j != lf);
                assert(!used[j]);
            }
        }
        assert forall|k1: u64, k2: u64|
            page <= k1 < end && page <= k2 < end && k1 != k2 implies #[trigger] pt2[k1].target
                != #[trigger] pt2[k2].target by {
            if k1 == page {
                assert(pt2.contains_key(k2));
                let j = choose|j: int|
                    0 <= j < used1.len() && !used1[j] && used2[j] && #[trigger] pt2[k2].target == (offset + j) * 4096;
                assert(j != lf);
            } else if k2 == page {
                assert(pt2.contains_key(k1));
                let j = choose|j: int|
                    0 <= j < used1.len() && !used1[j] && used2[j] && #[trigger] pt2[k1].target == (offset + j) * 4096;
                assert(j != lf);
            }
        }
    }
}

} // verus!
