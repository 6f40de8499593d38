use os::init::FirstFitAllocator_test;
use os::memory::frame_allocator::{FirstFitAllocator, SegmentTreeAllocator};
use os::memory::{alloc_frame, alloc_frames, dealloc_frame, dealloc_frames, init_allocator};

#[test]
fn segment_tree_hands_out_lowest_frame_first() {
    let mut a = SegmentTreeAllocator::new();
    a.init(10, 20);
    assert_eq!(a.allocate(), 10);
    assert_eq!(a.allocate(), 11);
    assert_eq!(a.allocate(), 12);
}

#[test]
fn segment_tree_reuses_returned_frame() {
    let mut a = SegmentTreeAllocator::new();
    a.init(10, 20);
    let f0 = a.allocate();
    let f1 = a.allocate();
    let f2 = a.allocate();
    assert_eq!((f0, f1, f2), (10, 11, 12));
    a.dealloc(f1);
    assert_eq!(a.allocate(), 11);
    assert_eq!(a.allocate(), 13);
}

#[test]
fn segment_tree_alloc_then_dealloc_restores_state() {
    let mut a = SegmentTreeAllocator::new();
    a.init(1, 6);
    let f = a.allocate();
    a.dealloc(f);
    assert_eq!(a.allocate(), f);
}

#[test]
fn segment_tree_init_frees_whole_range() {
    // init(10, 14) frees the frames 10, 11, 12 and 13.
    let mut a = SegmentTreeAllocator::new();
    a.init(10, 14);
    assert_eq!(a.allocate(), 10);
    assert_eq!(a.allocate(), 11);
    assert_eq!(a.allocate(), 12);
    assert_eq!(a.allocate(), 13);
    assert!(!a.can_allocate());
    a.dealloc(12);
    assert_eq!(a.allocate(), 12);
}

#[test]
fn segment_tree_frames_are_distinct_until_returned() {
    let mut a = SegmentTreeAllocator::new();
    a.init(100, 164);
    let mut got = Vec::new();
    for _ in 0..64 {
        got.push(a.allocate());
    }
    for (i, f) in got.iter().enumerate() {
        assert_eq!(*f, 100 + i);
    }
}

#[test]
fn alloc_frame_wraps_segment_tree() {
    let mut a = SegmentTreeAllocator::new();
    a.init(7, 12);
    assert_eq!(alloc_frame(&mut a), Some(7));
    assert_eq!(alloc_frame(&mut a), Some(8));
    dealloc_frame(&mut a, 7);
    assert_eq!(alloc_frame(&mut a), Some(7));
}

#[test]
fn first_fit_allocator_test_scores_eight() {
    let mut a = FirstFitAllocator::new();
    assert_eq!(FirstFitAllocator_test(&mut a), 8);
}

#[test]
fn first_fit_takes_first_long_enough_run() {
    let mut a = FirstFitAllocator::new();
    init_allocator(&mut a, 1, 9);
    // slots 1..=8 are free
    assert_eq!(a.allocate(2), Some(1));
    assert_eq!(a.allocate(3), Some(3));
    a.dealloc(1, 2);
    // slots 1, 2 free; 3, 4, 5 used; 6, 7, 8 free
    assert_eq!(a.allocate(3), Some(6));
    assert_eq!(a.allocate(2), Some(1));
    assert_eq!(a.allocate(1), None);
}

#[test]
fn first_fit_zero_count_takes_one_slot() {
    let mut a = FirstFitAllocator::new();
    init_allocator(&mut a, 1, 3);
    assert_eq!(a.allocate(0), Some(1));
    assert_eq!(a.allocate(0), Some(2));
    assert_eq!(a.allocate(0), None);
}

#[test]
fn first_fit_none_when_run_too_long() {
    let mut a = FirstFitAllocator::new();
    init_allocator(&mut a, 1, 4);
    assert_eq!(a.allocate(4), None);
    assert_eq!(a.allocate(3), Some(1));
}

#[test]
fn first_fit_returns_frame_numbers() {
    let mut a = FirstFitAllocator::new();
    init_allocator(&mut a, 11, 16);
    assert_eq!(alloc_frames(&mut a, 2), Some(11));
    dealloc_frames(&mut a, 11, 2);
    assert_eq!(alloc_frames(&mut a, 5), Some(11));
    assert_eq!(alloc_frames(&mut a, 1), None);
}

#[test]
fn first_fit_gives_back_what_it_returned() {
    let mut a = FirstFitAllocator::new();
    init_allocator(&mut a, 2, 10);
    assert_eq!(a.allocate(3), Some(2));
    let p = a.allocate(1).unwrap();
    assert_eq!(p, 5);
    a.dealloc(p, 1);
    assert_eq!(a.allocate(1), Some(5));
    a.dealloc(2, 3);
    a.dealloc(5, 1);
    assert_eq!(a.allocate(8), Some(2));
}

#[test]
fn first_fit_alloc_then_dealloc_restores_state() {
    let mut a = FirstFitAllocator::new();
    init_allocator(&mut a, 1, 7);
    let s = a.allocate(4).unwrap();
    a.dealloc(s, 4);
    assert_eq!(a.allocate(6), Some(1));
}

#[test]
fn segment_tree_guards() {
    let mut a = SegmentTreeAllocator::new();
    a.init(1, 3);
    // frames 1 and 2 are free; frames 0 and 3 are leaves of the tree in use
    assert!(a.can_allocate());
    assert!(!a.can_dealloc(1));
    assert!(!a.can_dealloc(2));
    assert!(a.can_dealloc(0));
    assert!(a.can_dealloc(3));
    assert!(!a.can_dealloc(1 + 64));
    assert_eq!(a.allocate(), 1);
    assert_eq!(a.allocate(), 2);
    assert!(!a.can_allocate());
    assert!(a.can_dealloc(1));
}

#[test]
fn first_fit_guards() {
    let mut a = FirstFitAllocator::new();
    init_allocator(&mut a, 5, 10);
    assert_eq!(a.allocate(2), Some(5));
    assert!(a.can_dealloc(5, 2));
    assert!(!a.can_dealloc(5, 3));
    assert!(!a.can_dealloc(3, 1));
    // frame 3 lies below the managed range even for an empty run
    assert!(!a.can_dealloc(3, 0));
    assert!(a.can_dealloc(9, 0));
    assert!(!a.can_dealloc(4 + 0x8000, 1));
}
