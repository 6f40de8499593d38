use vstd::prelude::*;
use crate::memory::paging::{PageTableImpl, fresh_entry, page_of};
use crate::memory::frame_allocator::{SegmentTreeAllocator, lowest_free, lemma_lowest_free};
use crate::memory::{alloc_frame, can_alloc_frame};
use super::attr::MemoryAttr;

verus! {

broadcast use SegmentTreeAllocator::lemma_used_len;

/// How the pages of a memory area get their frames.
///
/// The frame allocator is described by the number of its first frame
/// (`offset`) and, per frame, whether it is in use (`used`).
pub trait MemoryHandler {
    /// `map` may be called for the page at `va`.
    spec fn can_map(&self, va: u64, offset: int, used: Seq<bool>) -> bool;

    /// Start address of the frame that `map` maps the page at `va` to.
    spec fn target(&self, va: u64, offset: int, used: Seq<bool>) -> u64;

    /// Which frames are in use after `map`.
    spec fn used_after(&self, va: u64, offset: int, used: Seq<bool>) -> Seq<bool>;

    /// Maps the page at `va` with permissions `attr`.
    fn map(&self, pt: &mut PageTableImpl, va: u64, attr: &MemoryAttr, frames: &mut SegmentTreeAllocator)
        requires
            old(frames).wf(),
            !old(pt)@.contains_key(page_of(va)),
            self.can_map(va, old(frames).frame_offset(), old(frames).used()),
        ensures
            final(pt)@ == old(pt)@.insert(
                page_of(va),
                attr.applied(
                    fresh_entry(self.target(va, old(frames).frame_offset(), old(frames).used())),
                ),
            ),
            final(pt).root() == old(pt).root(),
            final(frames).wf(),
            final(frames).leaf_count() == old(frames).leaf_count(),
            final(frames).frame_offset() == old(frames).frame_offset(),
            final(frames).frame_count() == old(frames).frame_count(),
            final(frames).used() == self.used_after(
                va,
                old(frames).frame_offset(),
                old(frames).used(),
            ),
    ;

    /// Removes the mapping of the page at `va`.
    fn unmap(&self, pt: &mut PageTableImpl, va: u64)
        requires
            old(pt)@.contains_key(page_of(va)),
        ensures
            final(pt)@ == old(pt)@.remove(page_of(va)),
            final(pt).root() == old(pt).root(),
    ;
}

/// Maps each page at virtual address `va` to physical address `va - offset`.
#[derive(Clone, Copy, Debug)]
pub struct Linear {
    offset: u64,
}

impl Linear {
    /// Difference between a virtual address and the physical address it maps to.
    pub closed spec fn linear_offset(&self) -> u64 {
        self.offset
    }

    /// `new_spec(off)` has difference `off`.
    pub broadcast proof fn lemma_new_spec(off: u64)
        ensures
            #[trigger] Linear::new_spec(off).linear_offset() == off,
    {
    }

    /// The handler with difference `off`.
    pub closed spec fn new_spec(off: u64) -> Linear {
        Linear { offset: off }
    }

    /// A handler with difference `off`.
    pub fn new(off: u64) -> (r: Self)
        ensures
            r.linear_offset() == off,
            r == Linear::new_spec(off),
    {
        Linear { offset: off }
    }
}

impl MemoryHandler for Linear {
    open spec fn can_map(&self, va: u64, offset: int, used: Seq<bool>) -> bool {
        va >= self.linear_offset()
    }

    open spec fn target(&self, va: u64, offset: int, used: Seq<bool>) -> u64 {
        (va - self.linear_offset()) as u64
    }

    open spec fn used_after(&self, va: u64, offset: int, used: Seq<bool>) -> Seq<bool> {
        used
    }

    fn map(&self, pt: &mut PageTableImpl, va: u64, attr: &MemoryAttr, frames: &mut SegmentTreeAllocator) {
        attr.apply(pt.map(va, va - self.offset));
    }

    fn unmap(&self, pt: &mut PageTableImpl, va: u64) {
        pt.unmap(va);
    }
}

/// Maps each page to a frame taken from the frame allocator.
#[derive(Clone, Copy, Debug)]
pub struct ByFrame;

impl ByFrame {
    /// The handler.
    pub fn new() -> (r: Self) {
        ByFrame {  }
    }
}

impl MemoryHandler for ByFrame {
    open spec fn can_map(&self, va: u64, offset: int, used: Seq<bool>) -> bool {
        &&& lowest_free(used) < used.len()
        &&& offset + used.len() + lowest_free(used) <= usize::MAX
    }

    open spec fn target(&self, va: u64, offset: int, used: Seq<bool>) -> u64 {
        ((offset + lowest_free(used)) as usize as u64) << 12u64
    }

    open spec fn used_after(&self, va: u64, offset: int, used: Seq<bool>) -> Seq<bool> {
        used.update(lowest_free(used), true)
    }

    fn map(&self, pt: &mut PageTableImpl, va: u64, attr: &MemoryAttr, frames: &mut SegmentTreeAllocator) {
        let frame = alloc_frame(frames).unwrap();
        let pa = (frame as u64) << 12u64;
        attr.apply(pt.map(va, pa));
    }

    fn unmap(&self, pt: &mut PageTableImpl, va: u64) {
        pt.unmap(va);
    }
}

/// A handler of one of the kinds above, as a memory area keeps it.
#[derive(Clone, Copy, Debug)]
pub enum HandlerBox {
    Linear(Linear),
    ByFrame(ByFrame),
}

impl MemoryHandler for HandlerBox {
    open spec fn can_map(&self, va: u64, offset: int, used: Seq<bool>) -> bool {
        match self {
            HandlerBox::Linear(h) => h.can_map(va, offset, used),
            HandlerBox::ByFrame(h) => h.can_map(va, offset, used),
        }
    }

    open spec fn target(&self, va: u64, offset: int, used: Seq<bool>) -> u64 {
        match self {
            HandlerBox::Linear(h) => h.target(va, offset, used),
            HandlerBox::ByFrame(h) => h.target(va, offset, used),
        }
    }

    open spec fn used_after(&self, va: u64, offset: int, used: Seq<bool>) -> Seq<bool> {
        match self {
            HandlerBox::Linear(h) => h.used_after(va, offset, used),
            HandlerBox::ByFrame(h) => h.used_after(va, offset, used),
        }
    }

    fn map(&self, pt: &mut PageTableImpl, va: u64, attr: &MemoryAttr, frames: &mut SegmentTreeAllocator) {
        match self {
            HandlerBox::Linear(h) => h.map(pt, va, attr, frames),
            HandlerBox::ByFrame(h) => h.map(pt, va, attr, frames),
        }
    }

    fn unmap(&self, pt: &mut PageTableImpl, va: u64) {
        match self {
            HandlerBox::Linear(h) => h.unmap(pt, va),
            HandlerBox::ByFrame(h) => h.unmap(pt, va),
        }
    }
}

} // verus!
