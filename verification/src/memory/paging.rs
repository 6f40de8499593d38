use vstd::prelude::*;
use std::collections::HashMap;
use crate::consts::PAGE_SIZE;
use crate::memory::frame_allocator::{SegmentTreeAllocator, lowest_free};
use crate::memory::{alloc_frame, can_alloc_frame};

verus! {

broadcast use vstd::std_specs::hash::group_hash_axioms;

/// Number of the page that holds address `addr`.
pub open spec fn page_of(addr: u64) -> u64 {
    (addr / PAGE_SIZE) as u64
}

/// Start of the page or frame that holds address `addr`.
pub open spec fn page_floor(addr: u64) -> u64 {
    (addr - addr % PAGE_SIZE) as u64
}

/// A leaf entry of a page table: the frame a page maps to and its permission bits.
#[derive(Clone, Copy, Debug, PartialEq, Eq)]
pub struct PageEntry {
    /// Start address of the frame.
    pub target: u64,
    /// Valid bit.
    pub present: bool,
    /// Read permission.
    pub readable: bool,
    /// Write permission.
    pub writable: bool,
    /// Execute permission.
    pub executable: bool,
    /// User-mode access.
    pub user: bool,
}

/// Entry that `PageTableImpl::map` creates for a frame address: valid,
/// readable, writable, executable, not user-accessible.
pub open spec fn fresh_entry(pa: u64) -> PageEntry {
    PageEntry {
        target: page_floor(pa),
        present: true,
        readable: true,
        writable: true,
        executable: true,
        user: false,
    }
}

impl PageEntry {
    /// Sets the valid bit.
    pub fn set_present(&mut self, value: bool)
        ensures
            *final(self) == (PageEntry { present: value, ..*old(self) }),
    {
        self.present = value;
    }

    /// Sets the user-access bit.
    pub fn set_user(&mut self, value: bool)
        ensures
            *final(self) == (PageEntry { user: value, ..*old(self) }),
    {
        self.user = value;
    }

    /// Sets the write-permission bit.
    pub fn set_writable(&mut self, value: bool)
        ensures
            *final(self) == (PageEntry { writable: value, ..*old(self) }),
    {
        self.writable = value;
    }

    /// Sets the execute-permission bit.
    pub fn set_execute(&mut self, value: bool)
        ensures
            *final(self) == (PageEntry { executable: value, ..*old(self) }),
    {
        self.executable = value;
    }
}

/// A page table: which page maps to which frame, and with which permissions.
pub struct PageTableImpl {
    entries: HashMap<u64, PageEntry>,
    root_ppn: usize,
}

impl View for PageTableImpl {
    type V = Map<u64, PageEntry>;

    /// Page number to entry.
    closed spec fn view(&self) -> Map<u64, PageEntry> {
        self.entries@
    }
}

impl PageTableImpl {
    /// Frame reserved for the root of the table. This model keeps the
    /// entries in its map and writes nothing into that frame.
    pub closed spec fn root(&self) -> usize {
        self.root_ppn
    }

    /// An empty table; the frame reserved for its root is taken from `frames`.
    pub fn new_bare(frames: &mut SegmentTreeAllocator) -> (pt: Self)
        requires
            can_alloc_frame(&*old(frames)),
        ensures
            pt@ == Map::<u64, PageEntry>::empty(),
            pt.root() == old(frames).frame_offset() + lowest_free(old(frames).used()),
            final(frames).wf(),
            final(frames).leaf_count() == old(frames).leaf_count(),
            final(frames).frame_offset() == old(frames).frame_offset(),
            final(frames).frame_count() == old(frames).frame_count(),
            final(frames).used() == old(frames).used().update(lowest_free(old(frames).used()), true),
    {
        let root_ppn = alloc_frame(frames).unwrap();
        PageTableImpl { entries: HashMap::new(), root_ppn }
    }

    /// Frame reserved for the root of the table.
    pub fn root_ppn(&self) -> (r: usize)
        ensures
            r == self.root(),
    {
        self.root_ppn
    }

    /// Maps the page of `va` to the frame of `pa` with the default permissions,
    /// and hands back its entry for adjusting them.
    pub fn map(&mut self, va: u64, pa: u64) -> (entry: &mut PageEntry)
        requires
            !old(self)@.contains_key(page_of(va)),
        ensures
            *entry == fresh_entry(pa),
            final(self)@ == old(self)@.insert(page_of(va), *final(entry)),
            final(self).root() == old(self).root(),
    {
        let vpn = va / PAGE_SIZE;
        let e = PageEntry {
            target: pa - pa % PAGE_SIZE,
            present: true,
            readable: true,
            writable: true,
            executable: true,
            user: false,
        };
        self.entries.entry(vpn).or_insert(e)
    }

    /// Removes the mapping of the page of `va`.
    pub fn unmap(&mut self, va: u64)
        requires
            old(self)@.contains_key(page_of(va)),
        ensures
            final(self)@ == old(self)@.remove(page_of(va)),
            final(self).root() == old(self).root(),
    {
        let vpn = va / PAGE_SIZE;
        self.entries.remove(&vpn);
    }

    /// The entry of the page of `va`, if it is mapped.
    pub fn get_entry(&self, va: u64) -> (r: Option<PageEntry>)
        ensures
            r == (if self@.contains_key(page_of(va)) {
                Some(self@[page_of(va)])
            } else {
                None
            }),
    {
        let vpn = va / PAGE_SIZE;
        match self.entries.get(&vpn) {
            Some(e) => Some(*e),
            None => None,
        }
    }
}

} // verus!
