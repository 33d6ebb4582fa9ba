use kernel::pmm::init;
use kernel::pmm::Frame;
use kernel::pmm::MemoryRegion;
use kernel::pmm::Pmm;
use kernel::pmm::RegionKind;

fn region(base: u64, length: u64, kind: RegionKind) -> MemoryRegion {
    MemoryRegion { base, length, kind }
}

/// One usable region of `frames` frames starting at `base`.
fn small_pmm(base: u64, frames: u64) -> Pmm {
    let map = vec![region(base, frames * 4096, RegionKind::Usable)];
    init(&map, 0)
}

fn bits_snapshot(pmm: &Pmm) -> Vec<bool> {
    let total = pmm.bitmap_len() * 64;
    let mut v = Vec::new();
    for i in 0..total {
        v.push(pmm.frame_is_used(i));
    }
    v
}

#[test]
fn init_frees_usable_region_except_bitmap() {
    // One USABLE region [0x100000, 0x200000), all else RESERVED.
    let map = vec![
        region(0, 0x100000, RegionKind::Reserved),
        region(0x100000, 0x100000, RegionKind::Usable),
        region(0x200000, 0x40000, RegionKind::Reserved),
    ];
    let pmm = init(&map, 0xffff_8000_0000_0000);
    // Highest usable top 0x200000 -> 513 frames -> 9 bitmap words.
    assert_eq!(pmm.bitmap_len(), 9);
    assert_eq!(pmm.bitmap_vaddr(), 0xffff_8000_0010_0000);
    // The bitmap occupies 72 bytes at 0x100000, so frame 0x100 hosts it.
    for i in 0..(9 * 64) {
        let used = pmm.frame_is_used(i);
        let in_region = i >= 0x101 && i < 0x200;
        assert_eq!(used, !in_region, "frame {i}");
    }
}

#[test]
fn alloc_is_first_fit() {
    // Frames 2..=16 are free after init (bitmap occupies frame 1's start).
    let mut pmm = small_pmm(0x1000, 16);
    // Claim everything, then free {2,3,4} and {10,11}.
    let all = pmm.alloc_frame(15).unwrap();
    assert_eq!(all.phys_addr(), 2 * 4096);
    pmm.dealloc_frame(Frame::from_u64(2 * 4096, 3 * 4096));
    pmm.dealloc_frame(Frame::from_u64(10 * 4096, 2 * 4096));
    // First fit: two frames come from {2,3}, never {10,11}.
    let f = pmm.alloc_frame(2).unwrap();
    assert_eq!(f.phys_addr(), 2 * 4096);
    assert_eq!(f.len_bytes(), 2 * 4096);
    // Now only {4} and {10,11} are free: the next pair comes from {10,11}.
    let g = pmm.alloc_frame(2).unwrap();
    assert_eq!(g.phys_addr(), 10 * 4096);
}

#[test]
fn alloc_zero_frames_is_an_error() {
    let mut pmm = small_pmm(0x1000, 16);
    assert!(pmm.alloc_frame(0).is_err());
}

#[test]
fn alloc_never_returns_frame_zero() {
    // A usable region starting at physical 0: frame 0 stays unallocatable.
    let mut pmm = small_pmm(0, 16);
    loop {
        match pmm.alloc_frame(1) {
            Ok(f) => assert!(f.phys_addr() >= 4096),
            Err(_) => break,
        }
    }
}

#[test]
fn alloc_then_dealloc_restores_bitmap() {
    let mut pmm = small_pmm(0x1000, 16);
    let before = bits_snapshot(&pmm);
    let f = pmm.alloc_frame(3).unwrap();
    let during = bits_snapshot(&pmm);
    assert_ne!(before, during);
    pmm.dealloc_frame(f);
    let after = bits_snapshot(&pmm);
    assert_eq!(before, after);
}

#[test]
fn alloc_marks_exactly_the_run_used() {
    let mut pmm = small_pmm(0x1000, 16);
    let before = bits_snapshot(&pmm);
    let f = pmm.alloc_frame(3).unwrap();
    let start = (f.phys_addr() / 4096) as usize;
    let after = bits_snapshot(&pmm);
    for i in 0..after.len() {
        if i >= start && i < start + 3 {
            assert!(after[i]);
            assert!(!before[i]);
        } else {
            assert_eq!(after[i], before[i]);
        }
    }
}

#[test]
fn live_allocations_never_overlap() {
    let mut pmm = small_pmm(0x1000, 16);
    let a = pmm.alloc_frame(4).unwrap();
    let b = pmm.alloc_frame(4).unwrap();
    let (a0, a1) = (a.phys_addr(), a.phys_addr() + a.len_bytes() as u64);
    let (b0, b1) = (b.phys_addr(), b.phys_addr() + b.len_bytes() as u64);
    assert!(a1 <= b0 || b1 <= a0);
}

#[test]
fn exhaustion_is_an_error_and_leaves_the_bitmap_alone() {
    let mut pmm = small_pmm(0x1000, 16);
    let before = bits_snapshot(&pmm);
    // Only 15 frames exist in total, so 16 contiguous can never fit.
    assert!(pmm.alloc_frame(16).is_err());
    assert_eq!(before, bits_snapshot(&pmm));
    // A fragmented map refuses a run longer than its largest hole.
    let first = pmm.alloc_frame(1).unwrap();
    let _second = pmm.alloc_frame(1).unwrap();
    pmm.dealloc_frame(first);
    assert!(pmm.alloc_frame(14).is_err());
}

#[test]
fn find_free_frame_does_not_mark() {
    let pmm = small_pmm(0x1000, 16);
    let f = pmm.find_free_frame(2).unwrap();
    assert_eq!(f.phys_addr(), 2 * 4096);
    let g = pmm.find_free_frame(2).unwrap();
    assert_eq!(g.phys_addr(), 2 * 4096);
    assert!(pmm.find_free_frame(0).is_none());
}

#[test]
fn init_with_several_usable_regions() {
    // Two usable regions; the larger one hosts the bitmap.
    let map = vec![
        region(0x1000, 2 * 4096, RegionKind::Usable),
        region(0x10000, 8 * 4096, RegionKind::Usable),
        region(0x40000, 0x1000, RegionKind::BadMemory),
    ];
    let pmm = init(&map, 0);
    // Top usable = 0x10000 + 0x8000 = 0x18000 -> 25 frames, 1 word.
    assert_eq!(pmm.bitmap_len(), 1);
    // Bitmap (8 bytes) sits at 0x10000, so frame 0x10 still hosts it.
    assert_eq!(pmm.bitmap_vaddr(), 0x10000);
    // Frames 1,2 from the first region are free.
    assert!(!pmm.frame_is_used(1));
    assert!(!pmm.frame_is_used(2));
    // Host region frames 0x11..0x18 are free, 0x10 is not.
    assert!(pmm.frame_is_used(0x10));
    for i in 0x11..0x18 {
        assert!(!pmm.frame_is_used(i));
    }
    assert!(pmm.frame_is_used(0));
    assert!(pmm.frame_is_used(3));
}
