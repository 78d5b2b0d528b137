use early_boot::memory::{AreaFrameAllocator, Frame, MemoryRegion};

fn drain(a: &mut AreaFrameAllocator) -> Vec<u64> {
    let mut out = Vec::new();
    while let Some(f) = a.allocate_frame() {
        out.push(f.number);
    }
    out
}

#[test]
fn one_mebibyte_with_kernel_and_boot_info() {
    let regions = vec![MemoryRegion { base_addr: 0, length: 0x100000 }];
    let mut a = AreaFrameAllocator::new(0x10000, 0x20000, 0x20000, 0x20100, regions);
    let frames = drain(&mut a);
    assert_eq!(frames[0] * 0x1000, 0x0);
    for f in &frames {
        let addr = f * 0x1000;
        assert!(!(0x10000..0x20000).contains(&addr));
        assert!(!(0x20000..0x21000).contains(&addr));
    }
    assert_eq!(*frames.last().unwrap() * 0x1000, 0xFF000);
    assert_eq!(frames.len(), 0x100 - 0x11);
    assert_eq!(a.allocate_frame(), None);
}

#[test]
fn frames_strictly_increase() {
    let regions = vec![
        MemoryRegion { base_addr: 0x100000, length: 0x8000 },
        MemoryRegion { base_addr: 0, length: 0x3000 },
        MemoryRegion { base_addr: 0x9000, length: 0x2000 },
    ];
    let mut a = AreaFrameAllocator::new(0x200000, 0x200000, 0x300000, 0x300000, regions);
    let frames = drain(&mut a);
    assert_eq!(frames, vec![0, 1, 2, 9, 10, 0x100, 0x101, 0x102, 0x103, 0x104, 0x105, 0x106, 0x107]);
    for w in frames.windows(2) {
        assert!(w[0] < w[1]);
    }
}

#[test]
fn exhausted_allocator_stays_exhausted() {
    let regions = vec![MemoryRegion { base_addr: 0x1000, length: 0x2000 }];
    let mut a = AreaFrameAllocator::new(0x0, 0x0, 0x0, 0x0, regions);
    assert_eq!(a.allocate_frame(), Some(Frame { number: 1 }));
    assert_eq!(a.allocate_frame(), Some(Frame { number: 2 }));
    for _ in 0..5 {
        assert_eq!(a.allocate_frame(), None);
    }
}

#[test]
fn no_regions_yield_nothing() {
    let mut a = AreaFrameAllocator::new(0x100000, 0x200000, 0x300000, 0x301000, Vec::new());
    assert_eq!(a.allocate_frame(), None);
    assert_eq!(a.allocate_frame(), None);
}

#[test]
fn frames_below_first_region_are_skipped() {
    let regions = vec![MemoryRegion { base_addr: 0x5000, length: 0x1000 }];
    let mut a = AreaFrameAllocator::new(0x100000, 0x100000, 0x100000, 0x100000, regions);
    assert_eq!(a.allocate_frame(), Some(Frame { number: 5 }));
    assert_eq!(a.allocate_frame(), None);
}

#[test]
fn kernel_range_end_frame_is_reserved() {
    let regions = vec![MemoryRegion { base_addr: 0, length: 0x6000 }];
    // the kernel ends inside frame 3, so frames 1 to 3 are kept back
    let mut a = AreaFrameAllocator::new(0x1000, 0x3008, 0x10000, 0x10000, regions);
    assert_eq!(drain(&mut a), vec![0, 4, 5]);
}

#[test]
fn boot_info_range_is_reserved() {
    let regions = vec![MemoryRegion { base_addr: 0, length: 0x5000 }];
    let mut a = AreaFrameAllocator::new(0x10000, 0x10000, 0x2000, 0x2fff, regions);
    assert_eq!(drain(&mut a), vec![0, 1, 3, 4]);
}

#[test]
fn inverted_kernel_range_reserves_nothing() {
    let regions = vec![MemoryRegion { base_addr: 0, length: 0x3000 }];
    let mut a = AreaFrameAllocator::new(0x2000, 0x0, 0x10000, 0x10000, regions);
    assert_eq!(drain(&mut a), vec![0, 1, 2]);
}

#[test]
fn overlapping_regions_hand_out_each_frame_once() {
    let regions = vec![
        MemoryRegion { base_addr: 0x2000, length: 0x3000 },
        MemoryRegion { base_addr: 0x0, length: 0x4000 },
    ];
    let mut a = AreaFrameAllocator::new(0x100000, 0x100000, 0x100000, 0x100000, regions);
    assert_eq!(drain(&mut a), vec![0, 1, 2, 3, 4]);
}

#[test]
fn region_at_top_of_address_space() {
    let regions = vec![MemoryRegion { base_addr: u64::MAX - 0x1fff, length: 0x2000 }];
    let mut a = AreaFrameAllocator::new(0, 0, 0, 0, regions);
    let top = u64::MAX / 0x1000;
    assert_eq!(drain(&mut a), vec![top - 1, top]);
}

#[test]
fn allocate_all_counts_remaining_frames() {
    let regions = vec![MemoryRegion { base_addr: 0, length: 0x100000 }];
    let mut a = AreaFrameAllocator::new(0x10000, 0x20000, 0x20000, 0x20100, regions);
    assert_eq!(a.allocate_frame(), Some(Frame { number: 0 }));
    assert_eq!(a.allocate_all(), 0x100 - 0x11 - 1);
    assert_eq!(a.allocate_frame(), None);
    assert_eq!(a.allocate_all(), 0);
}

#[test]
fn frame_address_conversions() {
    assert_eq!(Frame::containing_address(0x1fff).number, 1);
    assert_eq!(Frame::containing_address(0x2000).number, 2);
    assert_eq!(Frame { number: 0xff }.start_address(), 0xff000);
}
