use vstd::prelude::*;
use crate::consts::{KERNEL_BEGIN_PADDR, KERNEL_BEGIN_VADDR, PHYSICAL_MEMORY_END};
use crate::memory::frame_allocator::{FirstFitAllocator, mark, fits, block_len};
use crate::memory::{init_allocator, alloc_frames, dealloc_frames};

verus! {

broadcast use FirstFitAllocator::lemma_slots_len;

/// The physical frames `[first, end)` that lie above the kernel image, whose
/// last byte is at virtual address `end - 1`.
pub fn free_physical_frames(end: u64) -> (r: (u64, u64))
    requires
        KERNEL_BEGIN_VADDR <= end,
    ensures
        r.0 == (end - KERNEL_BEGIN_VADDR + KERNEL_BEGIN_PADDR) / 4096 + 1,
        r.1 == PHYSICAL_MEMORY_END / 4096,
{
    let x = end - KERNEL_BEGIN_VADDR + KERNEL_BEGIN_PADDR;
    assert(x >> 12 == x / 4096) by (bit_vector);
    assert(0x8800_0000u64 >> 12 == 0x8800_0000u64 / 4096) by (bit_vector);
    let first = (x >> 12) + 1;
    let last = PHYSICAL_MEMORY_END >> 12;
    (first, last)
}


/// Takes the first run of `cnt` free frames from `allocator`.
fn allocate(allocator: &mut FirstFitAllocator, cnt: usize) -> (r: Option<usize>)
    requires
        old(allocator).wf(),
    ensures
        final(allocator).wf(),
        final(allocator).slot_end() == old(allocator).slot_end(),
        final(allocator).frame_offset() == old(allocator).frame_offset(),
        match r {
            Some(p) => {
                let s = p - old(allocator).frame_offset();
                &&& old(allocator).frame_offset() <= p
                &&& fits(old(allocator).slots(), old(allocator).slot_end(), s, block_len(cnt as int))
                &&& forall|t: int|
                    1 <= t < s ==> !fits(
                        old(allocator).slots(),
                        old(allocator).slot_end(),
                        t,
                        block_len(cnt as int),
                    )
                &&& final(allocator).slots() == mark(
                    old(allocator).slots(),
                    s,
                    block_len(cnt as int),
                    true,
                )
            },
            None => {
                &&& forall|t: int|
                    !fits(old(allocator).slots(), old(allocator).slot_end(), t, block_len(cnt as int))
                &&& final(allocator).slots() == old(allocator).slots()
            },
        },
{
    if let Some(frames) = alloc_frames(allocator, cnt) {
        return Some(frames);
    }
    return None;
}

/// Returns the `cnt` frames starting at `pnn` to `allocator`.
fn dealloc(allocator: &mut FirstFitAllocator, pnn: usize, cnt: usize)
    requires
        old(allocator).wf(),
        old(allocator).frame_offset() <= pnn,
        pnn - old(allocator).frame_offset() + cnt <= usize::MAX,
        pnn - old(allocator).frame_offset() + cnt <= 0x8000 || cnt == 0,
        forall|k: int|
            pnn - old(allocator).frame_offset() <= k < pnn - old(allocator).frame_offset() + cnt
                ==> #[trigger] old(allocator).slots()[k],
    ensures
        final(allocator).wf(),
        final(allocator).slot_end() == old(allocator).slot_end(),
        final(allocator).frame_offset() == old(allocator).frame_offset(),
        final(allocator).slots() == mark(
            old(allocator).slots(),
            pnn - old(allocator).frame_offset(),
            cnt as int,
            false,
        ),
{
    dealloc_frames(allocator, pnn, cnt)
}

/// Slots 1 to 5 hold `u1` to `u5`.
spec fn slots_are(slots: Seq<bool>, u1: bool, u2: bool, u3: bool, u4: bool, u5: bool) -> bool {
    &&& slots[1] == u1
    &&& slots[2] == u2
    &&& slots[3] == u3
    &&& slots[4] == u4
    &&& slots[5] == u5
}

/// Runs a fixed series of allocations and deallocations on frames `[1, 6)`
/// and counts the checks that come out as a first-fit allocator must give
/// them; all eight do.
#[allow(non_snake_case)]
pub fn FirstFitAllocator_test(allocator: &mut FirstFitAllocator) -> (grade: usize)
    requires
        old(allocator).wf(),
    ensures
        grade == 8,
        final(allocator).wf(),
        final(allocator).frame_offset() == 0,
        final(allocator).slot_end() == 6,
        final(allocator).slots() == mark(old(allocator).slots(), 1, 5, false),
{
    let mut grade: usize = 0;
    init_allocator(allocator, 1, 6);
    let ghost s0 = allocator.slots();
    assert(slots_are(s0, false, false, false, false, false));
    let mut p0 = allocate(allocator, 5);
    if p0.is_none() {
        assert(fits(s0, 6, 1, block_len(5)));
        return grade;
    }
    let mut p0 = p0.unwrap();
    assert(p0 == 1);
    assert(slots_are(allocator.slots(), true, true, true, true, true));
    let ghost s1 = allocator.slots();
    if !allocate(allocator, 1).is_none() {
        return grade;
    }
    assert(allocator.slots() == s1);
    dealloc(allocator, p0 + 2, 3);
    assert(slots_are(allocator.slots(), true, true, false, false, false));
    let ghost s2 = allocator.slots();
    if !allocate(allocator, 4).is_none() {
        return grade;
    } else {
        grade += 1;
    }
    let mut p1 = allocate(allocator, 3);
    if p1.is_none() {
        assert(fits(s2, 6, 3, block_len(3)));
        return grade;
    } else {
        grade += 1;
    }
    let mut p1 = p1.unwrap();
    assert(p1 == 3) by {
        if p1 == 1 {
            assert(s2[1]);
        } else if p1 == 2 {
            assert(s2[2]);
        }
    }
    assert(slots_are(allocator.slots(), true, true, true, true, true));
    if !allocate(allocator, 1).is_none() {
        return grade;
    } else {
        grade += 1;
    }
    if p0 + 2 != p1 {
        return grade;
    } else {
        grade += 1;
    }
    let mut p2 = p0 + 1;
    dealloc(allocator, p0, 1);
    dealloc(allocator, p1, 3);
    assert(slots_are(allocator.slots(), false, true, false, false, false));
    let ghost s3 = allocator.slots();
    let r = allocate(allocator, 1);
    assert(fits(s3, 6, 1, block_len(1)));
    p0 = r.unwrap();
    assert(p0 == 1);
    if p0 != p2 - 1 {
        return grade;
    } else {
        grade += 1;
    }
    dealloc(allocator, p0, 1);
    assert(slots_are(allocator.slots(), false, true, false, false, false));
    let ghost s4 = allocator.slots();
    let r = allocate(allocator, 2);
    assert(fits(s4, 6, 3, block_len(2)));
    p0 = r.unwrap();
    assert(p0 == 3) by {
        if p0 == 1 {
            assert(s4[2]);
        } else if p0 == 2 {
            assert(s4[2]);
        }
    }
    if p0 != p2 + 1 {
        return grade;
    } else {
        grade += 1;
    }
    dealloc(allocator, p0, 2);
    dealloc(allocator, p2, 1);
    assert(slots_are(allocator.slots(), false, false, false, false, false));
    let ghost s5 = allocator.slots();
    let mut p0 = allocate(allocator, 5);
    if p0.is_none() {
        assert(fits(s5, 6, 1, block_len(5)));
        return grade;
    } else {
        grade += 1;
    }
    assert(p0 == Some(1usize));
    assert(slots_are(allocator.slots(), true, true, true, true, true));
    if !allocate(allocator, 1).is_none() {
        return grade;
    } else {
        grade += 1;
    }
    dealloc(allocator, p0.unwrap(), 5);
    assert(allocator.slots() =~= mark(old(allocator).slots(), 1, 5, false));
    return grade;
}

} // verus!
