use kernel::elf::parse;
use kernel::elf::ElfParseError;
use kernel::pmm::init;
use kernel::pmm::MemoryRegion;
use kernel::pmm::Pmm;
use kernel::pmm::RegionKind;
use kernel::task::build_stack_image;
use kernel::task::PageTable;
use kernel::task::Task;
use kernel::task::TaskError;
use kernel::task::TaskState;
use kernel::task::STACK_BASE;
use kernel::task::STACK_SIZE;

fn put16(buf: &mut [u8], off: usize, v: u16) {
    buf[off..off + 2].copy_from_slice(&v.to_le_bytes());
}

fn put32(buf: &mut [u8], off: usize, v: u32) {
    buf[off..off + 4].copy_from_slice(&v.to_le_bytes());
}

fn put64(buf: &mut [u8], off: usize, v: u64) {
    buf[off..off + 8].copy_from_slice(&v.to_le_bytes());
}

fn get64(buf: &[u8], off: usize) -> u64 {
    u64::from_le_bytes(buf[off..off + 8].try_into().unwrap())
}

/// A minimal valid 64-bit little-endian EXEC image: file header at 0,
/// one program header at 64, one section header at 120, then `extra`
/// bytes of segment payload.
fn minimal_elf(extra: usize) -> Vec<u8> {
    let mut b = vec![0u8; 184 + extra];
    b[0] = 0x7f;
    b[1] = b'E';
    b[2] = b'L';
    b[3] = b'F';
    b[4] = 2; // 64-bit
    b[5] = 1; // little-endian
    b[6] = 1; // version
    b[7] = 0; // System V
    put16(&mut b, 16, 2); // ET_EXEC
    put16(&mut b, 18, 0x3e); // x86-64
    put32(&mut b, 20, 1); // version
    put64(&mut b, 24, 0x40_1000); // entry
    put64(&mut b, 32, 64); // phoff
    put64(&mut b, 40, 120); // shoff
    put32(&mut b, 48, 0); // flags
    put16(&mut b, 52, 64); // ehsize
    put16(&mut b, 54, 56); // phentsize
    put16(&mut b, 56, 1); // phnum
    put16(&mut b, 58, 64); // shentsize
    put16(&mut b, 60, 1); // shnum
    put16(&mut b, 62, 0); // shstrndx
    // Program header 0: empty PT_NULL unless a test overwrites it.
    // Section header 0: null section unless a test overwrites it.
    b
}

/// Give the image one PT_LOAD segment whose payload is the `extra` bytes.
fn with_load_segment(filesz: u64, memsz: u64, flags: u32) -> Vec<u8> {
    let mut b = minimal_elf(filesz as usize);
    put32(&mut b, 64, 1); // PT_LOAD
    put32(&mut b, 68, flags);
    put64(&mut b, 72, 184); // offset
    put64(&mut b, 80, 0x40_0000); // vaddr
    put64(&mut b, 96, filesz);
    put64(&mut b, 104, memsz);
    put64(&mut b, 112, 0x1000); // align
    for i in 0..filesz as usize {
        b[184 + i] = (0x30 + i) as u8;
    }
    b
}

fn test_pmm(frames: u64) -> Pmm {
    let map = vec![MemoryRegion { base: 0x1000, length: frames * 4096, kind: RegionKind::Usable }];
    init(&map, 0)
}

#[test]
fn parse_minimal_valid_image() {
    let b = minimal_elf(0);
    let elf = parse(&b).unwrap();
    let h = elf.header();
    assert_eq!(h.e_type, 2);
    assert_eq!(h.e_machine, 0x3e);
    assert_eq!(h.e_entry, 0x40_1000);
    assert_eq!(h.e_phoff, 64);
    assert_eq!(h.e_shoff, 120);
    assert_eq!(h.e_phentsize, 56);
    assert_eq!(h.e_phnum, 1);
    assert_eq!(h.e_shentsize, 64);
    assert_eq!(h.e_shnum, 1);
    assert_eq!(h.e_shstrndx, 0);
}

#[test]
fn parse_reads_header_tables_zero_copy() {
    let mut b = minimal_elf(0);
    // Program header 0 with distinctive field values.
    put32(&mut b, 64, 1);
    put32(&mut b, 68, 5);
    put64(&mut b, 72, 0x1122_3344_5566_7788);
    put64(&mut b, 80, 0x99aa_bbcc_ddee_ff00);
    put64(&mut b, 88, 0x0102_0304_0506_0708);
    put64(&mut b, 96, 0x1111_2222_3333_4444);
    put64(&mut b, 104, 0x5555_6666_7777_8888);
    put64(&mut b, 112, 0x1000);
    // Section header 0 likewise.
    put32(&mut b, 120, 7);
    put32(&mut b, 124, 8);
    put64(&mut b, 128, 0xdead_beef_dead_beef);
    put64(&mut b, 136, 0xcafe_babe_cafe_babe);
    put64(&mut b, 144, 0x1234_5678_9abc_def0);
    put64(&mut b, 152, 0x0fed_cba9_8765_4321);
    put32(&mut b, 160, 9);
    put32(&mut b, 164, 10);
    put64(&mut b, 168, 16);
    put64(&mut b, 176, 24);
    let elf = parse(&b).unwrap();
    let ph = elf.pheader(0);
    assert_eq!(ph.p_type, 1);
    assert_eq!(ph.p_flags, 5);
    assert_eq!(ph.p_offset, 0x1122_3344_5566_7788);
    assert_eq!(ph.p_vaddr, 0x99aa_bbcc_ddee_ff00);
    assert_eq!(ph.p_paddr, 0x0102_0304_0506_0708);
    assert_eq!(ph.p_filesz, 0x1111_2222_3333_4444);
    assert_eq!(ph.p_memsz, 0x5555_6666_7777_8888);
    assert_eq!(ph.p_align, 0x1000);
    let sh = elf.sheader(0);
    assert_eq!(sh.sh_name, 7);
    assert_eq!(sh.sh_type, 8);
    assert_eq!(sh.sh_flags, 0xdead_beef_dead_beef);
    assert_eq!(sh.sh_addr, 0xcafe_babe_cafe_babe);
    assert_eq!(sh.sh_offset, 0x1234_5678_9abc_def0);
    assert_eq!(sh.sh_size, 0x0fed_cba9_8765_4321);
    assert_eq!(sh.sh_link, 9);
    assert_eq!(sh.sh_info, 10);
    assert_eq!(sh.sh_addralign, 16);
    assert_eq!(sh.sh_entsize, 24);
}

#[test]
fn parse_rejects_short_buffer() {
    let b = vec![0u8; 64];
    assert_eq!(parse(&b).unwrap_err(), ElfParseError::TooShort);
}

#[test]
fn parse_rejects_bad_magic() {
    let mut b = minimal_elf(0);
    b[1] = b'F';
    assert_eq!(parse(&b).unwrap_err(), ElfParseError::BadMagic);
}

#[test]
fn parse_rejects_32bit_class() {
    let mut b = minimal_elf(0);
    b[4] = 1;
    assert_eq!(parse(&b).unwrap_err(), ElfParseError::UnsupportedClass);
}

#[test]
fn parse_rejects_big_endian() {
    let mut b = minimal_elf(0);
    b[5] = 2;
    assert_eq!(parse(&b).unwrap_err(), ElfParseError::UnsupportedEncoding);
}

#[test]
fn parse_rejects_other_abi() {
    let mut b = minimal_elf(0);
    b[7] = 3;
    assert_eq!(parse(&b).unwrap_err(), ElfParseError::UnsupportedAbi);
}

#[test]
fn parse_rejects_relocatable_type() {
    let mut b = minimal_elf(0);
    put16(&mut b, 16, 1); // ET_REL
    assert_eq!(parse(&b).unwrap_err(), ElfParseError::UnsupportedType);
}

#[test]
fn parse_accepts_shared_object_type() {
    let mut b = minimal_elf(0);
    put16(&mut b, 16, 3); // ET_DYN
    assert!(parse(&b).is_ok());
}

#[test]
fn parse_rejects_missing_tables() {
    let mut b = minimal_elf(0);
    put64(&mut b, 32, 0); // phoff = 0
    assert_eq!(parse(&b).unwrap_err(), ElfParseError::NoProgramHeaders);
    let mut b = minimal_elf(0);
    put16(&mut b, 56, 0); // phnum = 0
    assert_eq!(parse(&b).unwrap_err(), ElfParseError::NoProgramHeaders);
    let mut b = minimal_elf(0);
    put64(&mut b, 40, 0); // shoff = 0
    assert_eq!(parse(&b).unwrap_err(), ElfParseError::NoSectionHeaders);
    let mut b = minimal_elf(0);
    put16(&mut b, 60, 0); // shnum = 0
    assert_eq!(parse(&b).unwrap_err(), ElfParseError::NoSectionHeaders);
}

#[test]
fn parse_rejects_wrong_record_sizes() {
    let mut b = minimal_elf(0);
    put16(&mut b, 54, 32); // phentsize
    assert_eq!(parse(&b).unwrap_err(), ElfParseError::BadProgramHeaderSize);
    let mut b = minimal_elf(0);
    put16(&mut b, 58, 40); // shentsize
    assert_eq!(parse(&b).unwrap_err(), ElfParseError::BadSectionHeaderSize);
}

#[test]
fn parse_rejects_tables_past_the_end() {
    let mut b = minimal_elf(0);
    put16(&mut b, 56, 3); // phnum: 64 + 3*56 > 184
    assert_eq!(parse(&b).unwrap_err(), ElfParseError::ProgramHeadersOutOfBounds);
    let mut b = minimal_elf(0);
    put64(&mut b, 40, 180); // shoff: 180 + 64 > 184
    assert_eq!(parse(&b).unwrap_err(), ElfParseError::SectionHeadersOutOfBounds);
}

#[test]
fn page_table_entry_presence_bit() {
    let mut entries = vec![0u64; 512];
    entries[0] = 1;
    entries[1] = 2;
    entries[2] = 3;
    entries[511] = 0x8000_0000_0000_0000;
    let pt = PageTable::new(&entries);
    assert!(pt.index(0).is_present());
    assert!(!pt.index(1).is_present());
    assert!(pt.index(2).is_present());
    assert!(!pt.index(3).is_present());
    assert!(!pt.index(511).is_present());
}

#[test]
fn stack_image_layout() {
    let argv = vec![b"hello-world".to_vec(), b"hi".to_vec()];
    let (data, sp) = build_stack_image(&argv).unwrap();
    assert_eq!(data.len(), STACK_SIZE);
    // Strings (12 + 3 bytes with NULs) end the image.
    let str_base = STACK_SIZE - 15;
    // The vector (argc, two pointers, null) sits 16-byte aligned below.
    let voff = (str_base - 32) / 16 * 16;
    assert_eq!(sp, STACK_BASE + voff as u64);
    assert_eq!(sp % 16, 0);
    assert_eq!(get64(&data, voff), 2); // argc
    assert_eq!(get64(&data, voff + 8), STACK_BASE + str_base as u64);
    assert_eq!(get64(&data, voff + 16), STACK_BASE + str_base as u64 + 12);
    assert_eq!(get64(&data, voff + 24), 0); // terminator
    assert_eq!(&data[str_base..str_base + 11], b"hello-world");
    assert_eq!(data[str_base + 11], 0);
    assert_eq!(&data[str_base + 12..str_base + 14], b"hi");
    assert_eq!(data[str_base + 14], 0);
    for j in 0..voff {
        assert_eq!(data[j], 0);
    }
}

#[test]
fn stack_image_rejects_oversized_arguments() {
    let argv = vec![vec![b'x'; STACK_SIZE]];
    assert!(build_stack_image(&argv).is_none());
}

#[test]
fn task_construction_loads_segments() {
    let b = with_load_segment(8, 0x1500, 5); // r-x, 2 frames
    let elf = parse(&b).unwrap();
    let mut pmm = test_pmm(32);
    let mut next_id = 7u64;
    let argv = vec![b"prog".to_vec()];
    let before: Vec<bool> = (0..pmm.bitmap_len() * 64).map(|i| pmm.frame_is_used(i)).collect();
    let task = Task::new(&mut pmm, &elf, &argv, &mut next_id).unwrap();
    assert_eq!(task.id, 7);
    assert_eq!(next_id, 8);
    assert_eq!(task.state, TaskState::Queued);
    assert_eq!(task.entry_address, 0x40_1000);
    assert_eq!(task.address_space.root_frame.len_bytes(), 4096);
    assert_eq!(task.address_space.segments.len(), 2);
    let seg = &task.address_space.segments[0];
    assert_eq!(seg.vaddr, 0x40_0000);
    assert!(seg.readable);
    assert!(!seg.writable);
    assert!(seg.executable);
    assert_eq!(seg.frame.len_bytes(), 2 * 4096);
    assert_eq!(seg.data.len(), 0x1500);
    assert_eq!(&seg.data[0..8], &b[184..192]);
    assert!(seg.data[8..].iter().all(|&x| x == 0));
    let stack = &task.address_space.segments[1];
    assert_eq!(stack.vaddr, STACK_BASE);
    assert!(stack.readable && stack.writable && !stack.executable);
    assert_eq!(stack.frame.len_bytes(), 4 * 4096);
    assert_eq!(stack.data.len(), STACK_SIZE);
    assert_eq!(task.stack_pointer % 16, 0);
    // Exactly the task's frames became used: 1 + 2 + 4 of them.
    let after: Vec<bool> = (0..pmm.bitmap_len() * 64).map(|i| pmm.frame_is_used(i)).collect();
    let newly_used = after
        .iter()
        .zip(before.iter())
        .filter(|(a, b)| **a && !**b)
        .count();
    assert_eq!(newly_used, 7);
    for (a, b) in after.iter().zip(before.iter()) {
        assert!(*a || !*b);
    }
}

#[test]
fn task_release_reclaims_all_frames() {
    let b = with_load_segment(8, 0x1500, 5);
    let elf = parse(&b).unwrap();
    let mut pmm = test_pmm(32);
    let mut next_id = 0u64;
    let argv = vec![b"prog".to_vec()];
    let before: Vec<bool> = (0..pmm.bitmap_len() * 64).map(|i| pmm.frame_is_used(i)).collect();
    let task = Task::new(&mut pmm, &elf, &argv, &mut next_id).unwrap();
    task.release(&mut pmm);
    let after: Vec<bool> = (0..pmm.bitmap_len() * 64).map(|i| pmm.frame_is_used(i)).collect();
    assert_eq!(before, after);
}

#[test]
fn task_ids_increase_monotonically() {
    let b = with_load_segment(4, 16, 7);
    let elf = parse(&b).unwrap();
    let mut pmm = test_pmm(64);
    let mut next_id = 0u64;
    let argv: Vec<Vec<u8>> = Vec::new();
    let t1 = Task::new(&mut pmm, &elf, &argv, &mut next_id).unwrap();
    let t2 = Task::new(&mut pmm, &elf, &argv, &mut next_id).unwrap();
    assert_eq!(t1.id, 0);
    assert_eq!(t2.id, 1);
    assert_eq!(next_id, 2);
}

#[test]
fn task_failure_rolls_every_frame_back() {
    let b = with_load_segment(8, 0x1500, 5);
    let elf = parse(&b).unwrap();
    // Too few frames for 1 + 2 + 4.
    let mut pmm = test_pmm(5);
    let mut next_id = 0u64;
    let argv = vec![b"prog".to_vec()];
    let before: Vec<bool> = (0..pmm.bitmap_len() * 64).map(|i| pmm.frame_is_used(i)).collect();
    let err = Task::new(&mut pmm, &elf, &argv, &mut next_id).unwrap_err();
    assert_eq!(err, TaskError::AllocationExhausted);
    assert_eq!(next_id, 0);
    let after: Vec<bool> = (0..pmm.bitmap_len() * 64).map(|i| pmm.frame_is_used(i)).collect();
    assert_eq!(before, after);
}

#[test]
fn task_rejects_bad_segments() {
    let mut pmm = test_pmm(64);
    let mut next_id = 0u64;
    let argv: Vec<Vec<u8>> = Vec::new();

    let b = with_load_segment(8, 4, 5); // filesz > memsz
    let elf = parse(&b).unwrap();
    let err = Task::new(&mut pmm, &elf, &argv, &mut next_id).unwrap_err();
    assert_eq!(err, TaskError::BadSegmentSizes);

    let mut b = with_load_segment(8, 0x1500, 5);
    put64(&mut b, 72, 0x10_0000); // offset far past the end
    let elf = parse(&b).unwrap();
    let err = Task::new(&mut pmm, &elf, &argv, &mut next_id).unwrap_err();
    assert_eq!(err, TaskError::SegmentOutOfBounds);

    let mut b = with_load_segment(0, 16, 5);
    put64(&mut b, 104, u64::MAX); // memsz beyond any address space
    let elf = parse(&b).unwrap();
    let err = Task::new(&mut pmm, &elf, &argv, &mut next_id).unwrap_err();
    assert_eq!(err, TaskError::SegmentTooLarge);

    let b = with_load_segment(4, 16, 5);
    let elf = parse(&b).unwrap();
    let big_argv = vec![vec![b'x'; STACK_SIZE]];
    let err = Task::new(&mut pmm, &elf, &big_argv, &mut next_id).unwrap_err();
    assert_eq!(err, TaskError::ArgumentsTooLarge);

    assert_eq!(next_id, 0);
}
