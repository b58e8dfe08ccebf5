use rand_kernel::memory::frame::{
    Frame, FrameAllocator, FrameError, MemoryRegion, MemoryRegionKind, FRAME_SIZE, LOW_MEM_END,
};
use rand_kernel::memory::{alloc_frame, boot_map_supported, dealloc_frame, free_frames, init_frame_allocator, mark_range_used};

fn region(start: u64, end: u64, kind: MemoryRegionKind) -> MemoryRegion {
    MemoryRegion { start, end, kind }
}

/// A memory map with low memory, two usable regions separated by a
/// bootloader region, and a reserved region on top.
fn sample_map() -> Vec<MemoryRegion> {
    vec![
        region(0, 0x9f000, MemoryRegionKind::Usable),
        region(0x9f000, 0x100000, MemoryRegionKind::UnknownBios(2)),
        region(0x100000, 0x180000, MemoryRegionKind::Usable),
        region(0x180000, 0x200000, MemoryRegionKind::Bootloader),
        region(0x200000, 0x400000, MemoryRegionKind::Usable),
        region(0x400000, 0x500000, MemoryRegionKind::UnknownBios(2)),
    ]
}

#[test]
fn init_covers_usable_span() {
    let a = FrameAllocator::init(&sample_map()).expect("allocator");
    // 0x100000..0x400000 is 768 frames.
    assert_eq!(a.total_frames(), 768);
    // The bitmap frame and the 128 gap frames are used.
    assert_eq!(a.free_frames(), 768 - 1 - 128);
}

#[test]
fn init_without_usable_memory_is_none() {
    let map = vec![
        region(0, 0x9f000, MemoryRegionKind::Usable),
        region(0x100000, 0x200000, MemoryRegionKind::Bootloader),
    ];
    assert!(FrameAllocator::init(&map).is_none());
    assert!(FrameAllocator::init(&[]).is_none());
}

#[test]
fn init_clips_to_frames_above_low_memory() {
    // Unaligned bounds are rounded inwards; the part below 1 MiB is dropped.
    let map = vec![region(0x80001, 0x103fff, MemoryRegionKind::Usable)];
    let mut a = FrameAllocator::init(&map).expect("allocator");
    // 0x100000..0x103000: three frames, the first holds the bitmap.
    assert_eq!(a.total_frames(), 3);
    assert_eq!(a.free_frames(), 2);
    assert_eq!(a.alloc_frame(), Ok(Frame { addr: 0x101000 }));
    assert_eq!(a.alloc_frame(), Ok(Frame { addr: 0x102000 }));
    assert_eq!(a.alloc_frame(), Err(FrameError::OutOfMemory));
    assert_eq!(LOW_MEM_END, 0x100000);
}

#[test]
fn bitmap_lives_in_largest_region() {
    let mut a = FrameAllocator::init(&sample_map()).expect("allocator");
    // The frame at 0x200000 (largest region) is used from the start.
    assert_eq!(a.dealloc_frame(Frame { addr: 0x200000 }), Ok(()));
    assert_eq!(a.free_frames(), 768 - 128);
}

#[test]
fn gap_between_regions_is_never_handed_out() {
    let mut a = FrameAllocator::init(&sample_map()).expect("allocator");
    let mut n = 0;
    while let Ok(f) = a.alloc_frame() {
        assert!(f.addr % FRAME_SIZE == 0);
        assert!(
            (0x100000..0x180000).contains(&f.addr) || (0x201000..0x400000).contains(&f.addr),
            "frame {:#x} outside usable memory",
            f.addr
        );
        n += 1;
    }
    assert_eq!(n, 639);
    assert_eq!(a.free_frames(), 0);
}

#[test]
fn alloc_returns_lowest_free_frame() {
    let mut a = FrameAllocator::init(&sample_map()).expect("allocator");
    let f1 = a.alloc_frame().unwrap();
    let f2 = a.alloc_frame().unwrap();
    assert_eq!(f1, Frame { addr: 0x100000 });
    assert_eq!(f2, Frame { addr: 0x101000 });
    a.dealloc_frame(f1).unwrap();
    assert_eq!(a.alloc_frame(), Ok(f1));
}

#[test]
fn mem_test_scenario() {
    let mut slot = init_frame_allocator(&sample_map());
    let before = free_frames(&slot);
    assert_eq!(before, 639);

    // 1. Three allocations in a row give distinct frames.
    let f1 = alloc_frame(&mut slot).expect("alloc f1");
    let f2 = alloc_frame(&mut slot).expect("alloc f2");
    let f3 = alloc_frame(&mut slot).expect("alloc f3");
    assert_ne!(f1, f2);
    assert_ne!(f2, f3);
    assert_eq!(free_frames(&slot), before - 3);

    // 2. Freeing all three restores the count.
    dealloc_frame(&mut slot, f1).expect("free f1");
    dealloc_frame(&mut slot, f2).expect("free f2");
    dealloc_frame(&mut slot, f3).expect("free f3");
    assert_eq!(free_frames(&slot), before);

    // 3. Double free is rejected.
    assert_eq!(dealloc_frame(&mut slot, f1), Err(FrameError::DoubleFree));

    // 4. An address outside the managed range is rejected.
    assert_eq!(dealloc_frame(&mut slot, Frame { addr: 0xdead_beef }), Err(FrameError::OutOfRange));

    // 5. Allocation runs out after exactly the free frames.
    let mut count = 0usize;
    loop {
        match alloc_frame(&mut slot) {
            Ok(_) => count += 1,
            Err(FrameError::OutOfMemory) => break,
            Err(e) => panic!("unexpected alloc error: {e:?}"),
        }
    }
    assert_eq!(count, before);
    assert_eq!(free_frames(&slot), 0);
}

#[test]
fn dealloc_errors() {
    let mut a = FrameAllocator::init(&sample_map()).expect("allocator");
    // Below the managed range, misaligned, and past its end.
    assert_eq!(a.dealloc_frame(Frame { addr: 0x1000 }), Err(FrameError::OutOfRange));
    assert_eq!(a.dealloc_frame(Frame { addr: 0x100800 }), Err(FrameError::OutOfRange));
    assert_eq!(a.dealloc_frame(Frame { addr: 0x400000 }), Err(FrameError::OutOfRange));
    // A free frame inside the range.
    assert_eq!(a.dealloc_frame(Frame { addr: 0x100000 }), Err(FrameError::DoubleFree));
    assert_eq!(a.free_frames(), 639);
}

#[test]
fn mark_range_used_protects_frames() {
    let mut a = FrameAllocator::init(&sample_map()).expect("allocator");
    // The frame holding a misaligned start is protected too: 0x100001..0x103000
    // marks 0x100000, 0x101000 and 0x102000.
    a.mark_range_used(0x100001, 0x103000);
    assert_eq!(a.free_frames(), 636);
    // Marking again changes nothing.
    a.mark_range_used(0x100001, 0x103000);
    assert_eq!(a.free_frames(), 636);
    assert_eq!(a.alloc_frame(), Ok(Frame { addr: 0x103000 }));
    // A misaligned end protects the frame that holds its last byte.
    a.mark_range_used(0x104000, 0x104001);
    assert_eq!(a.alloc_frame(), Ok(Frame { addr: 0x105000 }));
    assert_eq!(a.free_frames(), 633);
    // An empty range, or one outside the managed frames, marks nothing.
    a.mark_range_used(0x107800, 0x107800);
    a.mark_range_used(0x108800, 0x107000);
    a.mark_range_used(0x500000, 0x600000);
    assert_eq!(a.free_frames(), 633);
    assert_eq!(a.alloc_frame(), Ok(Frame { addr: 0x106000 }));
    assert_eq!(a.alloc_frame(), Ok(Frame { addr: 0x107000 }));
}

#[test]
fn slot_without_allocator() {
    let mut slot: Option<FrameAllocator> = None;
    assert_eq!(alloc_frame(&mut slot), Err(FrameError::OutOfMemory));
    assert_eq!(dealloc_frame(&mut slot, Frame { addr: 0x100000 }), Err(FrameError::OutOfRange));
    assert_eq!(free_frames(&slot), 0);
    mark_range_used(&mut slot, 0, 0x1000);
    assert!(slot.is_none());
}

#[test]
fn bootloader_regions_are_protected() {
    // A bootloader region inside the usable span.
    let map = vec![
        region(0x100000, 0x200000, MemoryRegionKind::Usable),
        region(0x120800, 0x130000, MemoryRegionKind::Bootloader),
    ];
    let plain = FrameAllocator::init(&map).expect("allocator");
    assert_eq!(plain.free_frames(), 255);
    let mut slot = init_frame_allocator(&map);
    // The 16 frames holding the bootloader region are now used, including
    // the one that holds its misaligned start.
    assert_eq!(free_frames(&slot), 255 - 16);
    assert_eq!(dealloc_frame(&mut slot, Frame { addr: 0x120000 }), Ok(()));
    assert_eq!(dealloc_frame(&mut slot, Frame { addr: 0x130000 }), Err(FrameError::DoubleFree));
}

#[test]
fn supported_maps() {
    assert!(FrameAllocator::init_supported(&sample_map()));
    assert!(boot_map_supported(&sample_map()));
    assert!(FrameAllocator::init_supported(&[]));
    // A usable region reaching the top of the address space.
    let top = vec![region(0x100000, u64::MAX, MemoryRegionKind::Usable)];
    assert!(!FrameAllocator::init_supported(&top));
    // More frames than one bitmap frame can track (32768 frames = 128 MiB).
    let big = vec![region(0x100000, 0x100000 + 0x8001000, MemoryRegionKind::Usable)];
    assert!(!FrameAllocator::init_supported(&big));
    let just_fits = vec![region(0x100000, 0x100000 + 0x8000000, MemoryRegionKind::Usable)];
    assert!(FrameAllocator::init_supported(&just_fits));
    // The last usable region ends before the first one starts.
    let backwards = vec![
        region(0x300000, 0x400000, MemoryRegionKind::Usable),
        region(0x100000, 0x200000, MemoryRegionKind::Usable),
    ];
    assert!(!FrameAllocator::init_supported(&backwards));
    // The largest usable region starts past the end of the last one.
    let largest_after = vec![
        region(0x100000, 0x101000, MemoryRegionKind::Usable),
        region(0x500000, 0x600000, MemoryRegionKind::Usable),
        region(0x200000, 0x202000, MemoryRegionKind::Usable),
    ];
    assert!(!FrameAllocator::init_supported(&largest_after));
    // A bootloader region ending within the last frame of the address space.
    let mut high_boot = sample_map();
    high_boot.push(region(0x1000, u64::MAX, MemoryRegionKind::Bootloader));
    assert!(FrameAllocator::init_supported(&high_boot));
    assert!(!boot_map_supported(&high_boot));
}
