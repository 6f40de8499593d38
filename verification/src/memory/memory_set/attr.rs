use vstd::prelude::*;
use crate::memory::paging::PageEntry;

verus! {

/// Permissions that the pages of a memory area get.
#[derive(Clone, Debug)]
pub struct MemoryAttr {
    user: bool,
    readonly: bool,
    execute: bool,
}

impl MemoryAttr {
    /// User mode may access the pages.
    pub closed spec fn is_user(&self) -> bool {
        self.user
    }

    /// The pages may not be written.
    pub closed spec fn is_readonly(&self) -> bool {
        self.readonly
    }

    /// The pages may be executed.
    pub closed spec fn is_execute(&self) -> bool {
        self.execute
    }

    /// `entry` after `apply`: valid, with these permissions, the rest as it was.
    pub open spec fn applied(&self, entry: PageEntry) -> PageEntry {
        PageEntry {
            present: true,
            user: self.is_user(),
            writable: !self.is_readonly(),
            executable: self.is_execute(),
            ..entry
        }
    }

    /// Kernel-only, writable, not executable.
    pub fn new() -> (r: Self)
        ensures
            !r.is_user(),
            !r.is_readonly(),
            !r.is_execute(),
    {
        MemoryAttr { user: false, readonly: false, execute: false }
    }

    /// The same permissions, with user access.
    pub fn set_user(self) -> (r: Self)
        ensures
            r.is_user(),
            r.is_readonly() == self.is_readonly(),
            r.is_execute() == self.is_execute(),
    {
        MemoryAttr { user: true, ..self }
    }

    /// The same permissions, read-only.
    pub fn set_readonly(self) -> (r: Self)
        ensures
            r.is_user() == self.is_user(),
            r.is_readonly(),
            r.is_execute() == self.is_execute(),
    {
        MemoryAttr { readonly: true, ..self }
    }

    /// The same permissions, executable.
    pub fn set_execute(self) -> (r: Self)
        ensures
            r.is_user() == self.is_user(),
            r.is_readonly() == self.is_readonly(),
            r.is_execute(),
    {
        MemoryAttr { execute: true, ..self }
    }

    /// Writes these permissions into a page table entry and marks it valid.
    pub fn apply(&self, entry: &mut PageEntry)
        ensures
            *final(entry) == self.applied(*old(entry)),
    {
        entry.set_present(true);
        entry.set_user(self.user);
        entry.set_writable(!self.readonly);
        entry.set_execute(self.execute);
    }
}

} // verus!
