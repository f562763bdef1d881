use nexus_os::memory::{BitmapFrameAllocator, MemoryRegion};

fn region(start: u64, end: u64, usable: bool) -> MemoryRegion {
    MemoryRegion { start_addr: start, end_addr: end, usable }
}

fn small_map() -> Vec<MemoryRegion> {
    vec![
        region(0x0000, 0x1000, false),
        region(0x1000, 0x5000, true),
        region(0x5000, 0x8000, false),
        region(0x8000, 0xA000, true),
    ]
}

#[test]
fn init_counts_frames_up_to_the_last_usable_region() {
    let a = BitmapFrameAllocator::init(&small_map());
    assert_eq!(a.stats(), (10, 0, 10));
}

#[test]
fn init_with_no_usable_region_has_no_frames() {
    let mut a = BitmapFrameAllocator::init(&vec![region(0, 0x10000, false)]);
    assert_eq!(a.stats(), (0, 0, 0));
    assert_eq!(a.allocate_frame(), None);
}

#[test]
fn allocation_hands_out_lowest_free_frames() {
    let mut a = BitmapFrameAllocator::init(&small_map());
    let got: Vec<Option<u64>> = (0..7).map(|_| a.allocate_frame()).collect();
    assert_eq!(
        got,
        vec![Some(0x1000), Some(0x2000), Some(0x3000), Some(0x4000), Some(0x8000), Some(0x9000), None]
    );
    assert_eq!(a.stats(), (10, 6, 4));
}

#[test]
fn free_then_allocate_reuses_the_frame() {
    let mut a = BitmapFrameAllocator::init(&small_map());
    assert_eq!(a.allocate_frame(), Some(0x1000));
    assert_eq!(a.allocate_frame(), Some(0x2000));
    a.free_frame(0x1000);
    assert_eq!(a.stats(), (10, 1, 9));
    assert_eq!(a.allocate_frame(), Some(0x1000));
    assert_eq!(a.allocate_frame(), Some(0x3000));
}

#[test]
fn allocate_then_free_restores_stats() {
    let mut a = BitmapFrameAllocator::init(&small_map());
    let before = a.stats();
    let f = a.allocate_frame().unwrap();
    a.free_frame(f);
    assert_eq!(a.stats(), before);
    assert_eq!(a.allocate_frame(), Some(f));
}

#[test]
fn freeing_a_free_or_outside_frame_changes_nothing() {
    let mut a = BitmapFrameAllocator::init(&small_map());
    a.allocate_frame().unwrap();
    a.free_frame(0x2000);
    a.free_frame(0x100000);
    assert_eq!(a.stats(), (10, 1, 9));
}

#[test]
fn frames_across_several_words() {
    let mut a = BitmapFrameAllocator::init(&vec![region(0, 200 * 4096, true)]);
    assert_eq!(a.stats(), (200, 0, 200));
    for i in 0..130u64 {
        assert_eq!(a.allocate_frame(), Some(i * 4096));
    }
    a.free_frame(5 * 4096);
    a.free_frame(70 * 4096);
    assert_eq!(a.allocate_frame(), Some(5 * 4096));
    assert_eq!(a.allocate_frame(), Some(70 * 4096));
    assert_eq!(a.allocate_frame(), Some(130 * 4096));
    assert_eq!(a.stats(), (200, 131, 69));
}

#[test]
fn overlapping_and_unaligned_regions() {
    let a = BitmapFrameAllocator::init(&vec![region(0x1800, 0x3800, true), region(0x3000, 0x4000, true)]);
    assert_eq!(a.stats(), (4, 0, 4));
}
