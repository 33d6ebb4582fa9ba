//! Address-space and task construction: a typed, bounds-checked view over a
//! raw 512-entry hardware page table, and the builder that composes a
//! validated ELF image, the frame allocator and a fresh address space into
//! a runnable task descriptor.

use vstd::prelude::*;

use bitvec::order::Lsb0;
use bitvec::view::BitView;

use crate::bytes::le_u64;
use crate::bytes::write_u64;
use crate::elf::Elf64;
use crate::elf::Elf64Phdr;
use crate::elf::phdr_spec;
use crate::elf::PT_LOAD;
use crate::pmm::frame_used;
use crate::pmm::in_range;
use crate::pmm::marks_range_used;
use crate::pmm::run_free;
use crate::pmm::Frame;
use crate::pmm::Pmm;

verus! {

/// Relies on bitvec's `u64::view_bits::<Lsb0>` and `BitSlice::get`: under
/// the `Lsb0` ordering bit index 0 selects the least-significant bit of
/// the word (`Lsb0::select` is `1 << index`), and `get(0)` on a 64-bit
/// view is always `Some`.
#[verifier::external_body]
fn word_bit0(value: u64) -> (r: bool)
    ensures
        r == (value & 1u64 == 1u64),
{
    *value.view_bits::<Lsb0>().get(0).unwrap()
}

/// One entry of a hardware page table, inspected by value in this scope;
/// creating new translations is the designed-for extension point and out
/// of scope here.
pub struct PageTableEntry {
    raw: u64,
}

impl PageTableEntry {
    /// The raw 64-bit entry.
    pub closed spec fn raw_bits(&self) -> u64 {
        self.raw
    }

    pub fn new(entry: u64) -> (e: PageTableEntry)
        ensures
            e.raw_bits() == entry,
    {
        PageTableEntry { raw: entry }
    }

    /// Bit 0 of the raw entry: whether the translation is present.
    pub fn is_present(&self) -> (b: bool)
        ensures
            b == (self.raw_bits() & 1u64 == 1u64),
    {
        word_bit0(self.raw)
    }
}

/// A typed, bounds-checked view over a raw hardware page table: exactly
/// 512 entries reinterpreted in place, sharing the backing memory without
/// owning or copying it.
pub struct PageTable<'a> {
    raw: &'a [u64],
}

impl<'a> PageTable<'a> {
    /// The raw entries.
    pub closed spec fn entries(&self) -> Seq<u64> {
        self.raw@
    }

    pub open spec fn wf(&self) -> bool {
        self.entries().len() == 512
    }

    /// View `entries` as a page table; the caller supplies exactly 512
    /// entries.
    pub fn new(entries: &'a [u64]) -> (pt: PageTable<'a>)
        requires
            entries@.len() == 512,
        ensures
            pt.entries() == entries@,
            pt.wf(),
    {
        PageTable { raw: entries }
    }

    /// Entry `idx`, bounds-checked.
    pub fn index(&self, idx: usize) -> (e: PageTableEntry)
        requires
            self.wf(),
            idx < 512,
        ensures
            e.raw_bits() == self.entries()[idx as int],
    {
        PageTableEntry { raw: self.raw[idx] }
    }
}

/// Lifecycle state of a task; only a (future, out-of-scope) scheduler
/// moves it past `Queued`.
#[derive(Clone, Copy, Debug, PartialEq, Eq, Structural)]
pub enum TaskState {
    Queued,
    Running,
    Paused,
    Finished,
}

/// Why task construction was aborted. Every abort releases the frames
/// already allocated for the task.
#[derive(Clone, Copy, Debug, PartialEq, Eq, Structural)]
pub enum TaskError {
    /// The allocator had no sufficiently long free run for some piece of
    /// the task.
    AllocationExhausted,
    /// A loadable segment claims more file bytes than memory bytes.
    BadSegmentSizes,
    /// A loadable segment's file bytes run past the end of the image.
    SegmentOutOfBounds,
    /// A loadable segment's memory size cannot even be addressed.
    SegmentTooLarge,
    /// The argument strings and vector do not fit in the task's stack.
    ArgumentsTooLarge,
}

/// Bytes of one loadable segment as they must appear in memory: the
/// segment's file bytes followed by zero fill up to its memory size.
pub open spec fn segment_data_ok(
    image: Seq<u8>,
    data: Seq<u8>,
    off: int,
    filesz: int,
    memsz: int,
) -> bool {
    &&& data.len() == memsz
    &&& forall|j: int| 0 <= j < filesz ==> data[j] == image[off + j]
    &&& forall|j: int| filesz <= j < memsz ==> data[j] == 0
}

/// Copy `filesz` bytes of the image at `off` and zero-fill to `memsz`;
/// this is the in-memory form of a loadable segment (the zero fill covers
/// uninitialized data).
pub fn build_segment_data(elf: &Elf64, off: usize, filesz: usize, memsz: usize) -> (data: Vec<u8>)
    requires
        off + filesz <= elf.bytes().len(),
        filesz <= memsz,
    ensures
        segment_data_ok(elf.bytes(), data@, off as int, filesz as int, memsz as int),
{
    let image_len: usize = elf.len();
    let mut data: Vec<u8> = Vec::new();
    let mut j: usize = 0;
    while j < filesz
        invariant
            j <= filesz,
            filesz <= memsz,
            image_len == elf.bytes().len(),
            off + filesz <= elf.bytes().len(),
            data@.len() == j,
            forall|x: int| 0 <= x < j ==> data@[x] == elf.bytes()[off + x],
        decreases filesz - j,
    {
        data.push(elf.byte_at(off + j));
        j = j + 1;
    }
    while j < memsz
        invariant
            filesz <= j <= memsz,
            off + filesz <= elf.bytes().len(),
            data@.len() == j,
            forall|x: int| 0 <= x < filesz ==> data@[x] == elf.bytes()[off + x],
            forall|x: int| filesz <= x < j ==> data@[x] == 0,
        decreases memsz - j,
    {
        data.push(0);
        j = j + 1;
    }
    data
}


/// Size in bytes of a task's stack: four frames.
pub const STACK_SIZE: usize = 16384;

/// Virtual address where a task's stack region begins; the stack occupies
/// `STACK_SIZE` bytes from here, at the top of the user half.
pub const STACK_BASE: u64 = 0x0000_7FFF_FFFF_B000;

/// Bytes the first `n` argument strings need, each with its trailing NUL.
pub open spec fn strings_size_upto(argv: Seq<Seq<u8>>, n: int) -> int
    decreases n,
{
    if n <= 0 {
        0
    } else {
        strings_size_upto(argv, n - 1) + argv[n - 1].len() + 1
    }
}

/// Bytes all argument strings need.
pub open spec fn strings_size(argv: Seq<Seq<u8>>) -> int {
    strings_size_upto(argv, argv.len() as int)
}

/// Bytes the argc slot, the argv pointers and the terminating null slot
/// need.
pub open spec fn vector_size(argv: Seq<Seq<u8>>) -> int {
    (argv.len() as int + 2) * 8
}

/// The arguments fit in the stack region.
pub open spec fn argv_fits(argv: Seq<Seq<u8>>) -> bool {
    strings_size(argv) + vector_size(argv) <= STACK_SIZE
}

/// Offset inside the stack data where the strings begin (they end at the
/// top).
pub open spec fn strings_off(argv: Seq<Seq<u8>>) -> int {
    STACK_SIZE - strings_size(argv)
}

/// Offset inside the stack data of argument string `i`.
pub open spec fn str_off(argv: Seq<Seq<u8>>, i: int) -> int {
    strings_off(argv) + strings_size_upto(argv, i)
}

/// Offset inside the stack data of the argc slot, 16-byte aligned below
/// the strings.
pub open spec fn vector_off(argv: Seq<Seq<u8>>) -> int {
    ((strings_off(argv) - vector_size(argv)) / 16) * 16
}

/// The finished stack image: argc at the (16-byte aligned) stack pointer,
/// then one pointer per argument string, then a null slot; the strings
/// themselves NUL-terminated at the top; every byte in between zero.
pub open spec fn stack_layout_ok(argv: Seq<Seq<u8>>, data: Seq<u8>, sp: u64) -> bool {
    let argc = argv.len() as int;
    let voff = vector_off(argv);
    &&& data.len() == STACK_SIZE
    &&& sp == STACK_BASE + voff
    &&& sp % 16 == 0
    &&& le_u64(data, voff) == argc
    &&& forall|i: int|
        0 <= i < argc ==> le_u64(data, voff + 8 + 8 * i) == STACK_BASE + str_off(argv, i)
    &&& le_u64(data, voff + 8 + 8 * argc) == 0
    &&& forall|i: int, j: int|
        0 <= i < argc && 0 <= j < argv[i].len() ==> data[str_off(argv, i) + j] == argv[i][j]
    &&& forall|i: int| 0 <= i < argc ==> data[str_off(argv, i) + argv[i].len()] == 0
    &&& forall|j: int| 0 <= j < voff ==> data[j] == 0
    &&& forall|j: int| voff + (argc + 2) * 8 <= j < strings_off(argv) ==> data[j] == 0
}

proof fn lemma_strings_size_monotone(argv: Seq<Seq<u8>>, n1: int, n2: int)
    requires
        0 <= n1 <= n2,
    ensures
        strings_size_upto(argv, n1) <= strings_size_upto(argv, n2),
        0 <= strings_size_upto(argv, n1),
    decreases n2 - n1,
{
    if n1 < n2 {
        lemma_strings_size_monotone(argv, n1, n2 - 1);
    } else {
        lemma_strings_size_nonneg(argv, n1);
    }
}

proof fn lemma_strings_size_nonneg(argv: Seq<Seq<u8>>, n: int)
    ensures
        0 <= strings_size_upto(argv, n),
    decreases n,
{
    if n > 0 {
        lemma_strings_size_nonneg(argv, n - 1);
    }
}

/// Lay the argument strings and the argc/argv vector out in a fresh stack
/// image and compute the initial stack pointer; `None` exactly when the
/// arguments do not fit.
#[verifier::rlimit(100)]
pub fn build_stack_image(argv: &Vec<Vec<u8>>) -> (r: Option<(Vec<u8>, u64)>)
    ensures
        r is Some <==> argv_fits(argv.deep_view()),
        r matches Some(p) ==> stack_layout_ok(argv.deep_view(), p.0@, p.1),
{
    let ghost gargv = argv.deep_view();
    let argc: usize = argv.len();
    proof {
        assert(gargv.len() == argc);
        lemma_strings_size_monotone(gargv, 0, argc as int);
    }
    if argc > STACK_SIZE / 8 {
        proof {
            vstd::arithmetic::mul::lemma_mul_inequality(2051, argc as int + 2, 8);
        }
        return None;
    }
    let vec_len: usize = (argc + 2) * 8;

    let mut total: usize = 0;
    let mut i: usize = 0;
    while i < argc
        invariant
            i <= argc,
            argc == gargv.len(),
            gargv == argv.deep_view(),
            total == strings_size_upto(gargv, i as int),
            total <= STACK_SIZE,
            vec_len == vector_size(gargv),
            vec_len <= STACK_SIZE + 16,
        decreases argc - i,
    {
        let l: usize = argv[i].len();
        proof {
            assert(gargv[i as int] == argv[i as int].deep_view());
            assert(l == gargv[i as int].len());
        }
        if l >= STACK_SIZE - total {
            proof {
                lemma_strings_size_monotone(gargv, i as int + 1, argc as int);
                lemma_strings_size_monotone(gargv, 0, argc as int);
            }
            return None;
        }
        total = total + l + 1;
        i = i + 1;
    }
    if vec_len > STACK_SIZE - total {
        return None;
    }
    let str_base: usize = STACK_SIZE - total;
    let voff: usize = ((str_base - vec_len) / 16) * 16;
    proof {
        assert(str_base == strings_off(gargv));
        assert(voff == vector_off(gargv));
        vstd::arithmetic::div_mod::lemma_fundamental_div_mod((str_base - vec_len) as int, 16);
        vstd::arithmetic::div_mod::lemma_mod_division_less_than_divisor(
            (str_base - vec_len) as int,
            16,
        );
        vstd::arithmetic::mul::lemma_mul_inequality(
            ((str_base - vec_len) as int) / 16,
            str_base as int,
            16,
        );
    }

    let mut data: Vec<u8> = Vec::new();
    let mut z: usize = 0;
    while z < STACK_SIZE
        invariant
            z <= STACK_SIZE,
            data@.len() == z,
            forall|j: int| 0 <= j < z ==> data@[j] == 0,
        decreases STACK_SIZE - z,
    {
        data.push(0);
        z = z + 1;
    }

    write_u64(&mut data, voff, argc as u64);

    let mut k: usize = 0;
    let mut soff: usize = str_base;
    while k < argc
        invariant
            k <= argc,
            argc == gargv.len(),
            gargv == argv.deep_view(),
            argc <= 2048,
            vec_len == (argc + 2) * 8,
            voff == vector_off(gargv),
            str_base == strings_off(gargv),
            voff + vec_len <= str_base <= STACK_SIZE,
            0 <= voff,
            soff == str_off(gargv, k as int),
            str_base <= soff,
            strings_size_upto(gargv, k as int) + (STACK_SIZE - strings_size(gargv)) == soff,
            data@.len() == STACK_SIZE,
            le_u64(data@, voff as int) == argc,
            forall|x: int|
                0 <= x < k ==> le_u64(data@, voff + 8 + 8 * x) == STACK_BASE + str_off(gargv, x),
            forall|x: int, j: int|
                0 <= x < k && 0 <= j < gargv[x].len() ==> data@[str_off(gargv, x) + j]
                    == gargv[x][j],
            forall|x: int| 0 <= x < k ==> data@[str_off(gargv, x) + gargv[x].len()] == 0,
            forall|j: int| 0 <= j < voff ==> data@[j] == 0,
            forall|j: int| voff + 8 + 8 * k <= j < str_base && !(voff <= j < voff + 8) ==> data@[j]
                == 0,
            forall|j: int| soff <= j < STACK_SIZE ==> data@[j] == 0,
        decreases argc - k,
    {
        proof {
            lemma_strings_size_monotone(gargv, 0, k as int);
            lemma_strings_size_monotone(gargv, k as int + 1, argc as int);
            assert(gargv[k as int] == argv[k as int].deep_view());
        }
        let l: usize = argv[k].len();
        let ghost dprev = data@;
        write_u64(&mut data, voff + 8 + 8 * k, STACK_BASE + soff as u64);
        proof {
            assert(le_u64(data@, voff as int) == le_u64(dprev, voff as int));
            assert forall|x: int| 0 <= x < k implies le_u64(data@, voff + 8 + 8 * x) == STACK_BASE
                + str_off(gargv, x) by {
                assert(le_u64(data@, voff + 8 + 8 * x) == le_u64(dprev, voff + 8 + 8 * x));
            }
            assert(voff + 8 + 8 * (k as int) + 8 <= str_base);
            assert forall|x: int, y: int|
                0 <= x < k && 0 <= y < gargv[x].len() implies data@[str_off(gargv, x) + y]
                == gargv[x][y] by {
                lemma_strings_size_monotone(gargv, 0, x);
                lemma_strings_size_monotone(gargv, x + 1, argc as int);
                assert(str_base <= str_off(gargv, x) + y);
                assert(str_off(gargv, x) + y < str_off(gargv, x + 1));
                assert(str_off(gargv, x + 1) <= STACK_SIZE);
                assert(dprev[str_off(gargv, x) + y] == gargv[x][y]);
            }
            assert forall|x: int| 0 <= x < k implies data@[str_off(gargv, x) + gargv[x].len()]
                == 0 by {
                lemma_strings_size_monotone(gargv, 0, x);
                lemma_strings_size_monotone(gargv, x + 1, argc as int);
                assert(str_base <= str_off(gargv, x) + gargv[x].len());
                assert(str_off(gargv, x) + gargv[x].len() < str_off(gargv, x + 1));
                assert(str_off(gargv, x + 1) <= STACK_SIZE);
                assert(dprev[str_off(gargv, x) + gargv[x].len()] == 0);
            }
        }
        let mut j: usize = 0;
        while j < l
            invariant
                j <= l,
                k < argc,
                argc == gargv.len(),
                gargv == argv.deep_view(),
                l == gargv[k as int].len(),
                gargv[k as int] == argv[k as int].deep_view(),
                voff + vec_len <= str_base <= STACK_SIZE,
                vec_len == (argc + 2) * 8,
                0 <= voff,
                voff == vector_off(gargv),
                str_base == strings_off(gargv),
                soff == str_off(gargv, k as int),
                str_base <= soff,
                soff + l + 1 <= STACK_SIZE,
                data@.len() == STACK_SIZE,
                le_u64(data@, voff as int) == argc,
                forall|x: int|
                    0 <= x < k + 1 ==> le_u64(data@, voff + 8 + 8 * x) == STACK_BASE + str_off(
                        gargv,
                        x,
                    ),
                forall|x: int, y: int|
                    0 <= x < k && 0 <= y < gargv[x].len() ==> data@[str_off(gargv, x) + y]
                        == gargv[x][y],
                forall|x: int| 0 <= x < k ==> data@[str_off(gargv, x) + gargv[x].len()] == 0,
                forall|y: int| 0 <= y < j ==> data@[soff + y] == gargv[k as int][y],
                forall|y: int| 0 <= y < voff ==> data@[y] == 0,
                forall|y: int|
                    voff + 8 + 8 * (k + 1) <= y < str_base && !(voff <= y < voff + 8) ==> data@[y]
                        == 0,
                forall|y: int| soff + j <= y < STACK_SIZE ==> data@[y] == 0,
            decreases l - j,
        {
            let ghost dp2 = data@;
            let b: u8 = argv[k][j];
            data[soff + j] = b;
            proof {
                assert(b == gargv[k as int][j as int]);
                assert(le_u64(data@, voff as int) == le_u64(dp2, voff as int));
                assert forall|x: int| 0 <= x < k + 1 implies le_u64(data@, voff + 8 + 8 * x)
                    == STACK_BASE + str_off(gargv, x) by {
                    assert(le_u64(data@, voff + 8 + 8 * x) == le_u64(dp2, voff + 8 + 8 * x));
                }
                assert forall|x: int, y: int|
                    0 <= x < k && 0 <= y < gargv[x].len() implies data@[str_off(gargv, x) + y]
                    == gargv[x][y] by {
                    lemma_strings_size_monotone(gargv, 0, x);
                    lemma_strings_size_monotone(gargv, x + 1, k as int);
                    assert(str_off(gargv, x) + y < str_off(gargv, x + 1));
                    assert(str_off(gargv, x) + y < soff);
                    assert(dp2[str_off(gargv, x) + y] == gargv[x][y]);
                }
                assert forall|x: int| 0 <= x < k implies data@[str_off(gargv, x)
                    + gargv[x].len()] == 0 by {
                    lemma_strings_size_monotone(gargv, 0, x);
                    lemma_strings_size_monotone(gargv, x + 1, k as int);
                    assert(str_off(gargv, x) + gargv[x].len() < str_off(gargv, x + 1));
                    assert(str_off(gargv, x) + gargv[x].len() < soff);
                    assert(dp2[str_off(gargv, x) + gargv[x].len()] == 0);
                }
            }
            j = j + 1;
        }
        proof {
            assert(data@[soff + l] == 0);
        }
        soff = soff + l + 1;
        k = k + 1;
    }
    proof {
        assert(soff == STACK_SIZE);
        let ghost no = voff + 8 + 8 * (argc as int);
        assert(no + 8 <= str_base);
        assert(data@[no] == 0);
        assert(data@[no + 1] == 0);
        assert(data@[no + 2] == 0);
        assert(data@[no + 3] == 0);
        assert(data@[no + 4] == 0);
        assert(data@[no + 5] == 0);
        assert(data@[no + 6] == 0);
        assert(data@[no + 7] == 0);
        assert(le_u64(data@, voff + 8 + 8 * (argc as int)) == 0);
        assert((STACK_BASE + voff as u64) % 16 == 0) by {
            assert(voff as int == (((str_base - vec_len) as int) / 16) * 16);
            vstd::arithmetic::div_mod::lemma_mod_multiples_basic(
                ((str_base - vec_len) as int) / 16,
                16,
            );
        }
    }
    Some((data, STACK_BASE + voff as u64))
}


/// A program header describes a segment that must be loaded into memory.
pub open spec fn loadable(ph: Elf64Phdr) -> bool {
    ph.p_type == PT_LOAD && ph.p_memsz > 0
}

/// Loadable segment `i` of the image is well-formed enough to load: its
/// memory size covers its file size, its file bytes lie inside the image,
/// and its memory size is addressable.
pub open spec fn seg_ok(s: Seq<u8>, i: int) -> bool {
    let ph = phdr_spec(s, i);
    &&& ph.p_filesz <= ph.p_memsz
    &&& ph.p_offset + ph.p_filesz <= s.len()
    &&& ph.p_memsz <= usize::MAX - 4095
}

/// The error reported for a bad loadable segment: the first of its checks
/// that fails.
pub open spec fn seg_error(s: Seq<u8>, i: int) -> TaskError {
    let ph = phdr_spec(s, i);
    if !(ph.p_filesz <= ph.p_memsz) {
        TaskError::BadSegmentSizes
    } else if !(ph.p_offset + ph.p_filesz <= s.len()) {
        TaskError::SegmentOutOfBounds
    } else {
        TaskError::SegmentTooLarge
    }
}

/// The first bad loadable segment among the first `n` program headers,
/// with its error.
pub open spec fn first_seg_error_upto(s: Seq<u8>, n: int) -> Option<TaskError>
    decreases n,
{
    if n <= 0 {
        Option::None
    } else if first_seg_error_upto(s, n - 1) is Some {
        first_seg_error_upto(s, n - 1)
    } else if loadable(phdr_spec(s, n - 1)) && !seg_ok(s, n - 1) {
        Option::Some(seg_error(s, n - 1))
    } else {
        Option::None
    }
}

/// The validation error `Task::new` reports, if any: the first bad
/// loadable segment's error, else oversized arguments. `None` exactly when
/// the inputs are loadable.
pub open spec fn task_validation_error(s: Seq<u8>, argv: Seq<Seq<u8>>) -> Option<TaskError> {
    let phnum = crate::elf::ehdr_at(s).e_phnum as int;
    if first_seg_error_upto(s, phnum) is Some {
        first_seg_error_upto(s, phnum)
    } else if !argv_fits(argv) {
        Option::Some(TaskError::ArgumentsTooLarge)
    } else {
        Option::None
    }
}

proof fn lemma_first_seg_error_extend(s: Seq<u8>, n1: int, n2: int)
    requires
        0 <= n1 <= n2,
        first_seg_error_upto(s, n1) is Some,
    ensures
        first_seg_error_upto(s, n2) == first_seg_error_upto(s, n1),
    decreases n2 - n1,
{
    if n1 < n2 {
        lemma_first_seg_error_extend(s, n1, n2 - 1);
    }
}

/// Number of loadable segments among the first `n` program headers.
pub open spec fn count_loadable(s: Seq<u8>, n: int) -> int
    decreases n,
{
    if n <= 0 {
        0
    } else {
        count_loadable(s, n - 1) + if loadable(phdr_spec(s, n - 1)) {
            1int
        } else {
            0int
        }
    }
}

proof fn lemma_count_loadable_monotone(s: Seq<u8>, n1: int, n2: int)
    requires
        0 <= n1 <= n2,
    ensures
        count_loadable(s, n1) <= count_loadable(s, n2),
        0 <= count_loadable(s, n1),
        count_loadable(s, n2) - count_loadable(s, n1) <= n2 - n1,
    decreases n2 - n1,
{
    if n1 < n2 {
        lemma_count_loadable_monotone(s, n1, n2 - 1);
    } else {
        lemma_count_loadable_nonneg(s, n1);
    }
}

proof fn lemma_count_loadable_nonneg(s: Seq<u8>, n: int)
    ensures
        0 <= count_loadable(s, n),
    decreases n,
{
    if n > 0 {
        lemma_count_loadable_nonneg(s, n - 1);
    }
}

/// Whole frames needed to hold `memsz` bytes.
pub open spec fn frames_for(memsz: int) -> int {
    memsz / 4096 + if memsz % 4096 == 0 {
        0int
    } else {
        1int
    }
}

/// A handle as `alloc_frame` returns it: frame-aligned base below the run,
/// never the null frame.
pub open spec fn frame_handle_ok(f: Frame) -> bool {
    &&& f.base() == f.first_frame() * 4096
    &&& f.first_frame() >= 1
    &&& f.frame_count() >= 1
}

/// One loadable piece of the task's address space: the virtual range, the
/// permissions derived from the segment flags, the physical frames backing
/// it and the bytes to install in them.
#[derive(Debug)]
pub struct MappedSegment {
    pub vaddr: u64,
    pub readable: bool,
    pub writable: bool,
    pub executable: bool,
    pub frame: Frame,
    pub data: Vec<u8>,
}

/// A fresh address space: the frame holding the top-level page table
/// (zeroed until translations are installed, which is out of scope here)
/// and the segments mapped into it.
#[derive(Debug)]
pub struct AddressSpace {
    pub root_frame: Frame,
    pub segments: Vec<MappedSegment>,
}

/// A runnable process descriptor.
#[derive(Debug)]
pub struct Task {
    pub id: u64,
    pub address_space: AddressSpace,
    pub stack_pointer: u64,
    pub entry_address: u64,
    pub state: TaskState,
}

/// Segment `seg` realizes program header `i`: same virtual address,
/// permissions from the flag bits, file bytes plus zero fill as data, and
/// enough frames for the memory size.
pub open spec fn seg_matches(s: Seq<u8>, seg: MappedSegment, i: int) -> bool {
    let ph = phdr_spec(s, i);
    &&& seg.vaddr == ph.p_vaddr
    &&& seg.readable == (ph.p_flags & 4 != 0)
    &&& seg.writable == (ph.p_flags & 2 != 0)
    &&& seg.executable == (ph.p_flags & 1 != 0)
    &&& segment_data_ok(s, seg.data@, ph.p_offset as int, ph.p_filesz as int, ph.p_memsz as int)
    &&& seg.frame.frame_count() == frames_for(ph.p_memsz as int)
    &&& frame_handle_ok(seg.frame)
}

/// All frames a task owns: the page-table frame, then one run per mapped
/// segment (the stack's last).
pub open spec fn task_frames(t: Task) -> Seq<Frame> {
    seq![t.address_space.root_frame] + t.address_space.segments@.map_values(
        |sg: MappedSegment| sg.frame,
    )
}

/// Frame `i` belongs to one of the runs in `frames`.
pub open spec fn frames_cover(frames: Seq<Frame>, i: int) -> bool {
    exists|j: int|
        0 <= j < frames.len() && in_range(frames[j].first_frame(), frames[j].frame_count(), i)
}

proof fn lemma_frames_cover_push(frames: Seq<Frame>, f: Frame, i: int)
    ensures
        frames_cover(frames.push(f), i) == (frames_cover(frames, i) || in_range(
            f.first_frame(),
            f.frame_count(),
            i,
        )),
{
    if frames_cover(frames.push(f), i) {
        let j = choose|j: int|
            0 <= j < frames.push(f).len() && in_range(
                frames.push(f)[j].first_frame(),
                frames.push(f)[j].frame_count(),
                i,
            );
        if j < frames.len() {
            assert(frames.push(f)[j] == frames[j]);
            assert(frames_cover(frames, i));
        } else {
            assert(frames.push(f)[j] == f);
        }
    }
    if frames_cover(frames, i) {
        let j = choose|j: int|
            0 <= j < frames.len() && in_range(frames[j].first_frame(), frames[j].frame_count(), i);
        assert(frames.push(f)[j] == frames[j]);
        assert(0 <= j < frames.push(f).len() && in_range(
            frames.push(f)[j].first_frame(),
            frames.push(f)[j].frame_count(),
            i,
        ));
        assert(frames_cover(frames.push(f), i));
    }
    if in_range(f.first_frame(), f.frame_count(), i) {
        let j = frames.len() as int;
        assert(frames.push(f)[j] == f);
        assert(0 <= j < frames.push(f).len() && in_range(
            frames.push(f)[j].first_frame(),
            frames.push(f)[j].frame_count(),
            i,
        ));
        assert(frames_cover(frames.push(f), i));
    }
}

/// One allocation in a chain: the run was free, is aligned, lies in
/// bounds, and the step marked exactly it used.
spec fn chain_link(b1: Seq<u64>, b2: Seq<u64>, f: Frame) -> bool {
    &&& frame_handle_ok(f)
    &&& f.first_frame() + f.frame_count() <= b1.len() * 64
    &&& b2.len() == b1.len()
    &&& run_free(b1, f.first_frame(), f.frame_count())
    &&& marks_range_used(b1, b2, f.first_frame(), f.frame_count())
}

/// `snaps` records the bitmap between successive allocations of `frames`.
spec fn alloc_chain(snaps: Seq<Seq<u64>>, frames: Seq<Frame>) -> bool {
    &&& snaps.len() == frames.len() + 1
    &&& forall|j: int| 0 <= j < frames.len() ==> chain_link(snaps[j], snaps[j + 1], frames[j])
}

/// Release every frame of a partially built task, newest first; the
/// bitmap returns to its exact state from before the first allocation.
fn release_task_frames(
    pmm: &mut Pmm,
    root_frame: Frame,
    segments: Vec<MappedSegment>,
    Ghost(snaps): Ghost<Seq<Seq<u64>>>,
    Ghost(frames): Ghost<Seq<Frame>>,
)
    requires
        old(pmm).wf(),
        alloc_chain(snaps, frames),
        frames.len() == segments@.len() + 1,
        frames[0] == root_frame,
        forall|t: int| 0 <= t < segments@.len() ==> frames[t + 1] == segments@[t].frame,
        snaps[frames.len() as int] == old(pmm).bits(),
    ensures
        final(pmm).wf(),
        final(pmm).bits() == snaps[0],
        final(pmm).vaddr() == old(pmm).vaddr(),
{
    let mut segments = segments;
    let ghost m = frames.len() as int;
    while segments.len() > 0
        invariant
            pmm.wf(),
            alloc_chain(snaps, frames),
            frames.len() == m,
            m == frames.len() as int,
            segments@.len() + 1 <= m,
            frames[0] == root_frame,
            forall|t: int| 0 <= t < segments@.len() ==> frames[t + 1] == segments@[t].frame,
            snaps[segments@.len() as int + 1] == pmm.bits(),
            pmm.vaddr() == old(pmm).vaddr(),
        decreases segments@.len(),
    {
        let ghost cur = segments@.len() as int;
        let seg = segments.pop().unwrap();
        proof {
            assert(seg.frame == frames[cur - 1 + 1]);
            assert(chain_link(snaps[cur], snaps[cur + 1], frames[cur]));
        }
        let ghost pre = pmm.bits();
        pmm.dealloc_frame(seg.frame);
        proof {
            crate::pmm::lemma_alloc_dealloc_roundtrip(
                snaps[cur],
                snaps[cur + 1],
                pmm.bits(),
                frames[cur].first_frame(),
                frames[cur].frame_count(),
            );
        }
    }
    proof {
        assert(chain_link(snaps[0], snaps[1], frames[0]));
    }
    let ghost pre = pmm.bits();
    pmm.dealloc_frame(root_frame);
    proof {
        crate::pmm::lemma_alloc_dealloc_roundtrip(
            snaps[0],
            snaps[1],
            pmm.bits(),
            frames[0].first_frame(),
            frames[0].frame_count(),
        );
    }
}


proof fn lemma_chain_used_monotone(snaps: Seq<Seq<u64>>, frames: Seq<Frame>, j1: int, j2: int, b: int)
    requires
        alloc_chain(snaps, frames),
        0 <= j1 <= j2 <= frames.len(),
        forall|j: int| 0 <= j <= frames.len() ==> (#[trigger] snaps[j]).len() == snaps[0].len(),
        0 <= b < snaps[0].len() * 64,
        frame_used(snaps[j1], b),
    ensures
        frame_used(snaps[j2], b),
    decreases j2 - j1,
{
    if j1 < j2 {
        assert(chain_link(snaps[j1], snaps[j1 + 1], frames[j1]));
        assert(frame_used(snaps[j1 + 1], b) == (frame_used(snaps[j1], b) || in_range(
            frames[j1].first_frame(),
            frames[j1].frame_count(),
            b,
        )));
        lemma_chain_used_monotone(snaps, frames, j1 + 1, j2, b);
    }
}

/// Frames allocated along a chain are pairwise disjoint: each new run was
/// free while every older run was already marked used.
proof fn lemma_chain_disjoint(snaps: Seq<Seq<u64>>, frames: Seq<Frame>, j1: int, j2: int)
    requires
        alloc_chain(snaps, frames),
        forall|j: int| 0 <= j <= frames.len() ==> (#[trigger] snaps[j]).len() == snaps[0].len(),
        0 <= j1 < j2 < frames.len(),
    ensures
        frames[j1].first_frame() + frames[j1].frame_count() <= frames[j2].first_frame()
            || frames[j2].first_frame() + frames[j2].frame_count() <= frames[j1].first_frame(),
{
    assert(chain_link(snaps[j1], snaps[j1 + 1], frames[j1]));
    assert(chain_link(snaps[j2], snaps[j2 + 1], frames[j2]));
    assert forall|b: int|
        frames[j1].first_frame() <= b < frames[j1].first_frame()
            + frames[j1].frame_count() implies frame_used(snaps[j2], b) by {
        assert(frame_used(snaps[j1 + 1], b) == (frame_used(snaps[j1], b) || in_range(
            frames[j1].first_frame(),
            frames[j1].frame_count(),
            b,
        )));
        lemma_chain_used_monotone(snaps, frames, j1 + 1, j2, b);
    }
    crate::pmm::lemma_live_allocations_disjoint(
        snaps[j2],
        frames[j1].first_frame(),
        frames[j1].frame_count(),
        frames[j2].first_frame(),
        frames[j2].frame_count(),
    );
}

/// Frames the loadable segments among the first `n` program headers need.
pub open spec fn seg_frames_upto(s: Seq<u8>, n: int) -> int
    decreases n,
{
    if n <= 0 {
        0
    } else {
        seg_frames_upto(s, n - 1) + if loadable(phdr_spec(s, n - 1)) {
            frames_for(phdr_spec(s, n - 1).p_memsz as int)
        } else {
            0int
        }
    }
}

/// Frames a task for this image needs in all: one for the page table, the
/// loadable segments' and the stack's four.
pub open spec fn task_frames_needed(s: Seq<u8>) -> int {
    1 + seg_frames_upto(s, crate::elf::ehdr_at(s).e_phnum as int) + 4
}

proof fn lemma_frames_for_pos(memsz: int)
    requires
        memsz >= 1,
    ensures
        frames_for(memsz) >= 1,
{
    vstd::arithmetic::div_mod::lemma_fundamental_div_mod(memsz, 4096);
    vstd::arithmetic::div_mod::lemma_mod_division_less_than_divisor(memsz, 4096);
    vstd::arithmetic::div_mod::lemma_div_pos_is_pos(memsz, 4096);
}

proof fn lemma_seg_frames_monotone(s: Seq<u8>, n1: int, n2: int)
    requires
        0 <= n1 <= n2,
    ensures
        seg_frames_upto(s, n1) <= seg_frames_upto(s, n2),
        0 <= seg_frames_upto(s, n1),
    decreases n2 - n1,
{
    if n1 < n2 {
        lemma_seg_frames_monotone(s, n1, n2 - 1);
        if loadable(phdr_spec(s, n2 - 1)) {
            lemma_frames_for_pos(phdr_spec(s, n2 - 1).p_memsz as int);
        }
    } else {
        lemma_seg_frames_nonneg(s, n1);
    }
}

proof fn lemma_seg_frames_nonneg(s: Seq<u8>, n: int)
    ensures
        0 <= seg_frames_upto(s, n),
    decreases n,
{
    if n > 0 {
        lemma_seg_frames_nonneg(s, n - 1);
        if loadable(phdr_spec(s, n - 1)) {
            lemma_frames_for_pos(phdr_spec(s, n - 1).p_memsz as int);
        }
    }
}

impl Task {
    /// Build a runnable task from a validated image: one fresh frame for
    /// the top-level page table; for each loadable segment enough frames
    /// and its file bytes plus zero fill; a fixed-size stack holding the
    /// argument strings and vector at a reserved high virtual address; the
    /// entry address from the header, a fresh monotonically increasing id
    /// and the Queued state. When construction aborts, every frame the
    /// task had claimed is released and the bitmap returns to its prior
    /// bit pattern; the error names either the first invalid input or
    /// allocator exhaustion, never both. Exhaustion is never reported
    /// while the bitmap still holds one free run long enough for all the
    /// frames the task needs.
    #[verifier::rlimit(100)]
    pub fn new(pmm: &mut Pmm, elf: &Elf64, argv: &Vec<Vec<u8>>, next_id: &mut u64) -> (r: Result<
        Task,
        TaskError,
    >)
        requires
            old(pmm).wf(),
            elf.wf(),
            *old(next_id) < u64::MAX,
        ensures
            final(pmm).wf(),
            final(pmm).bits().len() == old(pmm).bits().len(),
            final(pmm).vaddr() == old(pmm).vaddr(),
            r matches Err(e) ==> {
                &&& final(pmm).bits() == old(pmm).bits()
                &&& *final(next_id) == *old(next_id)
                &&& (e == TaskError::AllocationExhausted || task_validation_error(
                    elf.bytes(),
                    argv.deep_view(),
                ) == Some(e))
                &&& (e == TaskError::AllocationExhausted ==> task_validation_error(
                    elf.bytes(),
                    argv.deep_view(),
                ) is None)
                &&& (e == TaskError::AllocationExhausted ==> !crate::pmm::has_free_run(
                    old(pmm).bits(),
                    task_frames_needed(elf.bytes()),
                ))
            },
            r matches Ok(t) ==> {
                &&& task_validation_error(elf.bytes(), argv.deep_view()) is None
                &&& t.id == *old(next_id)
                &&& *final(next_id) == *old(next_id) + 1
                &&& t.state is Queued
                &&& t.entry_address == elf.header_spec().e_entry
                &&& frame_handle_ok(t.address_space.root_frame)
                &&& t.address_space.root_frame.frame_count() == 1
                &&& t.address_space.segments@.len() == count_loadable(
                    elf.bytes(),
                    elf.header_spec().e_phnum as int,
                ) + 1
                &&& forall|i: int|
                    0 <= i < elf.header_spec().e_phnum && loadable(
                        #[trigger] phdr_spec(elf.bytes(), i),
                    ) ==> seg_matches(
                        elf.bytes(),
                        t.address_space.segments@[count_loadable(elf.bytes(), i)],
                        i,
                    )
                &&& {
                    let sseg = t.address_space.segments@.last();
                    &&& sseg.vaddr == STACK_BASE
                    &&& sseg.readable
                    &&& sseg.writable
                    &&& !sseg.executable
                    &&& sseg.frame.frame_count() == 4
                    &&& frame_handle_ok(sseg.frame)
                    &&& stack_layout_ok(argv.deep_view(), sseg.data@, t.stack_pointer)
                }
                &&& forall|b: int|
                    0 <= b < final(pmm).bits().len() * 64 ==> frame_used(final(pmm).bits(), b) == (
                    frame_used(old(pmm).bits(), b) || frames_cover(task_frames(t), b))
                &&& forall|j: int|
                    0 <= j < task_frames(t).len() ==> run_free(
                        old(pmm).bits(),
                        (#[trigger] task_frames(t)[j]).first_frame(),
                        task_frames(t)[j].frame_count(),
                    ) && task_frames(t)[j].first_frame() + task_frames(t)[j].frame_count() <= old(
                        pmm,
                    ).bits().len() * 64 && frame_handle_ok(task_frames(t)[j])
                &&& forall|j1: int, j2: int|
                    0 <= j1 < j2 < task_frames(t).len() ==> (#[trigger] task_frames(
                        t,
                    )[j1]).first_frame() + task_frames(t)[j1].frame_count() <= (
                    #[trigger] task_frames(t)[j2]).first_frame() || task_frames(t)[j2].first_frame()
                        + task_frames(t)[j2].frame_count() <= task_frames(t)[j1].first_frame()
            },
    {
        let ghost s = elf.bytes();
        let ghost gargv = argv.deep_view();
        let ghost bits0 = pmm.bits();

        let phnum: u16 = elf.phnum();
        let image_len: usize = elf.len();

        let mut vi: usize = 0;
        while vi < phnum as usize
            invariant
                vi <= phnum,
                elf.wf(),
                s == elf.bytes(),
                gargv == argv.deep_view(),
                phnum == elf.header_spec().e_phnum,
                image_len == s.len(),
                pmm.wf(),
                bits0 == old(pmm).bits(),
                pmm.bits() == bits0,
                pmm.vaddr() == old(pmm).vaddr(),
                *next_id == *old(next_id),
                first_seg_error_upto(s, vi as int) is None,
                forall|i: int| 0 <= i < vi && loadable(#[trigger] phdr_spec(s, i)) ==> seg_ok(s, i),
            decreases phnum - vi,
        {
            let ph: Elf64Phdr = elf.pheader(vi);
            if ph.p_type == PT_LOAD && ph.p_memsz > 0 {
                if !(ph.p_filesz <= ph.p_memsz) {
                    proof {
                        lemma_first_seg_error_extend(s, vi as int + 1, phnum as int);
                    }
                    return Err(TaskError::BadSegmentSizes);
                }
                if !(ph.p_offset <= image_len as u64 && ph.p_filesz <= image_len as u64
                    - ph.p_offset) {
                    proof {
                        lemma_first_seg_error_extend(s, vi as int + 1, phnum as int);
                    }
                    return Err(TaskError::SegmentOutOfBounds);
                }
                if ph.p_memsz > (usize::MAX - 4095) as u64 {
                    proof {
                        lemma_first_seg_error_extend(s, vi as int + 1, phnum as int);
                    }
                    return Err(TaskError::SegmentTooLarge);
                }
            }
            vi = vi + 1;
        }

        let stack_pair: (Vec<u8>, u64) = match build_stack_image(argv) {
            None => {
                return Err(TaskError::ArgumentsTooLarge);
            },
            Some(p) => p,
        };

        let ghost total_need = task_frames_needed(s);
        let root_frame: Frame = match pmm.alloc_frame(1) {
            Err(_) => {
                proof {
                    lemma_seg_frames_monotone(s, 0, phnum as int);
                    if crate::pmm::has_free_run(bits0, total_need) {
                        crate::pmm::lemma_has_free_run_gives_fit(bits0, total_need, 1);
                    }
                }
                return Err(TaskError::AllocationExhausted);
            },
            Ok(f) => f,
        };
        let ghost mut snaps: Seq<Seq<u64>> = seq![bits0, pmm.bits()];
        let ghost mut gframes: Seq<Frame> = seq![root_frame];
        proof {
            lemma_seg_frames_monotone(s, 0, phnum as int);
            if crate::pmm::has_free_run(bits0, total_need) {
                crate::pmm::lemma_has_free_run_step(
                    bits0,
                    pmm.bits(),
                    total_need,
                    root_frame.first_frame(),
                    1,
                );
            }
            assert(chain_link(snaps[0], snaps[1], gframes[0]));
            assert(alloc_chain(snaps, gframes));
            assert forall|b: int|
                0 <= b < bits0.len() * 64 implies frame_used(pmm.bits(), b) == (frame_used(
                bits0,
                b,
            ) || frames_cover(gframes, b)) by {
                assert(frame_used(pmm.bits(), b) == (frame_used(bits0, b) || in_range(
                    root_frame.first_frame(),
                    root_frame.frame_count(),
                    b,
                )));
                lemma_frames_cover_push(Seq::<Frame>::empty(), root_frame, b);
                assert(Seq::<Frame>::empty().push(root_frame) =~= gframes);
                if frames_cover(Seq::<Frame>::empty(), b) {
                    let j = choose|j: int|
                        0 <= j < Seq::<Frame>::empty().len() && in_range(
                            Seq::<Frame>::empty()[j].first_frame(),
                            Seq::<Frame>::empty()[j].frame_count(),
                            b,
                        );
                    assert(false);
                }
            }
        }

        let mut segments: Vec<MappedSegment> = Vec::new();
        let mut i: usize = 0;
        while i < phnum as usize
            invariant
                i <= phnum,
                elf.wf(),
                s == elf.bytes(),
                gargv == argv.deep_view(),
                phnum == elf.header_spec().e_phnum,
                image_len == s.len(),
                pmm.wf(),
                bits0 == old(pmm).bits(),
                pmm.bits().len() == bits0.len(),
                pmm.vaddr() == old(pmm).vaddr(),
                *next_id == *old(next_id),
                forall|x: int| 0 <= x < phnum && loadable(#[trigger] phdr_spec(s, x)) ==> seg_ok(s, x),
                first_seg_error_upto(s, phnum as int) is None,
                argv_fits(gargv),
                alloc_chain(snaps, gframes),
                gframes.len() == segments@.len() + 1,
                gframes[0] == root_frame,
                root_frame.frame_count() == 1,
                frame_handle_ok(root_frame),
                forall|t: int| 0 <= t < segments@.len() ==> gframes[t + 1] == segments@[t].frame,
                snaps[gframes.len() as int] == pmm.bits(),
                snaps[0] == bits0,
                forall|j: int| 0 <= j <= gframes.len() ==> (#[trigger] snaps[j]).len() == bits0.len(),
                segments@.len() == count_loadable(s, i as int),
                forall|x: int|
                    0 <= x < i && loadable(#[trigger] phdr_spec(s, x)) ==> seg_matches(
                        s,
                        segments@[count_loadable(s, x)],
                        x,
                    ),
                forall|b: int|
                    0 <= b < bits0.len() * 64 ==> frame_used(pmm.bits(), b) == (frame_used(
                        bits0,
                        b,
                    ) || frames_cover(gframes, b)),
                forall|j: int|
                    0 <= j < gframes.len() ==> run_free(
                        bits0,
                        (#[trigger] gframes[j]).first_frame(),
                        gframes[j].frame_count(),
                    ) && gframes[j].first_frame() + gframes[j].frame_count() <= bits0.len() * 64
                        && frame_handle_ok(gframes[j]),
                total_need == task_frames_needed(s),
                crate::pmm::has_free_run(bits0, total_need) ==> crate::pmm::has_free_run(
                    pmm.bits(),
                    seg_frames_upto(s, phnum as int) - seg_frames_upto(s, i as int) + 4,
                ),
            decreases phnum - i,
        {
            let ph: Elf64Phdr = elf.pheader(i);
            let ghost cl_pre = count_loadable(s, i as int);
            proof {
                lemma_count_loadable_monotone(s, 0, i as int);
            }
            if ph.p_type == PT_LOAD && ph.p_memsz > 0 {
                proof {
                    assert(loadable(phdr_spec(s, i as int)));
                    assert(seg_ok(s, i as int));
                }
                let memsz: usize = ph.p_memsz as usize;
                let n_frames: usize = memsz / 4096 + (if memsz % 4096 == 0 {
                    0
                } else {
                    1
                });
                proof {
                    vstd::arithmetic::div_mod::lemma_fundamental_div_mod(memsz as int, 4096);
                    vstd::arithmetic::div_mod::lemma_mod_division_less_than_divisor(
                        memsz as int,
                        4096,
                    );
                    assert(n_frames == frames_for(ph.p_memsz as int));
                    assert(n_frames * 4096 <= usize::MAX);
                }
                let ghost bpre = pmm.bits();
                match pmm.alloc_frame(n_frames) {
                    Err(_) => {
                        proof {
                            lemma_seg_frames_monotone(s, i as int + 1, phnum as int);
                            lemma_frames_for_pos(ph.p_memsz as int);
                            if crate::pmm::has_free_run(bits0, total_need) {
                                crate::pmm::lemma_has_free_run_gives_fit(
                                    bpre,
                                    seg_frames_upto(s, phnum as int) - seg_frames_upto(
                                        s,
                                        i as int,
                                    ) + 4,
                                    n_frames as int,
                                );
                            }
                        }
                        release_task_frames(
                            pmm,
                            root_frame,
                            segments,
                            Ghost(snaps),
                            Ghost(gframes),
                        );
                        return Err(TaskError::AllocationExhausted);
                    },
                    Ok(f) => {
                        proof {
                            lemma_seg_frames_monotone(s, i as int + 1, phnum as int);
                            lemma_frames_for_pos(ph.p_memsz as int);
                            if crate::pmm::has_free_run(bits0, total_need) {
                                crate::pmm::lemma_has_free_run_step(
                                    bpre,
                                    pmm.bits(),
                                    seg_frames_upto(s, phnum as int) - seg_frames_upto(
                                        s,
                                        i as int,
                                    ) + 4,
                                    f.first_frame(),
                                    n_frames as int,
                                );
                            }
                            let osnaps = snaps;
                            let ofr = gframes;
                            assert(chain_link(bpre, pmm.bits(), f));
                            snaps = snaps.push(pmm.bits());
                            gframes = gframes.push(f);
                            assert forall|j: int|
                                0 <= j < gframes.len() implies chain_link(
                                snaps[j],
                                snaps[j + 1],
                                gframes[j],
                            ) by {
                                if j < gframes.len() - 1 {
                                    assert(chain_link(osnaps[j], osnaps[j + 1], ofr[j]));
                                    assert(snaps[j] == osnaps[j]);
                                    assert(snaps[j + 1] == osnaps[j + 1]);
                                    assert(gframes[j] == ofr[j]);
                                } else {
                                    assert(snaps[j] == bpre);
                                    assert(snaps[j + 1] == pmm.bits());
                                    assert(gframes[j] == f);
                                }
                            }
                            assert(alloc_chain(snaps, gframes));
                            assert forall|b: int|
                                0 <= b < bits0.len() * 64 implies frame_used(pmm.bits(), b) == (
                            frame_used(bits0, b) || frames_cover(gframes, b)) by {
                                lemma_frames_cover_push(ofr, f, b);
                                assert(frame_used(bpre, b) == (frame_used(bits0, b)
                                    || frames_cover(ofr, b)));
                                assert(frame_used(pmm.bits(), b) == (frame_used(bpre, b)
                                    || in_range(f.first_frame(), f.frame_count(), b)));
                            }
                            assert forall|b: int|
                                f.first_frame() <= b < f.first_frame()
                                    + f.frame_count() implies !frame_used(bits0, b) by {
                                assert(!frame_used(bpre, b));
                                assert(frame_used(bpre, b) == (frame_used(bits0, b)
                                    || frames_cover(ofr, b)));
                            }
                            assert(run_free(bits0, f.first_frame(), f.frame_count()));
                        }
                        let data = build_segment_data(
                            elf,
                            ph.p_offset as usize,
                            ph.p_filesz as usize,
                            memsz,
                        );
                        let seg = MappedSegment {
                            vaddr: ph.p_vaddr,
                            readable: (ph.p_flags & 4) != 0,
                            writable: (ph.p_flags & 2) != 0,
                            executable: (ph.p_flags & 1) != 0,
                            frame: f,
                            data,
                        };
                        let ghost osegs = segments@;
                        segments.push(seg);
                        proof {
                            assert(seg_matches(s, segments@[cl_pre], i as int));
                            assert forall|x: int|
                                0 <= x < i + 1 && loadable(
                                #[trigger] phdr_spec(s, x),
                            ) implies seg_matches(s, segments@[count_loadable(s, x)], x) by {
                                if x < i {
                                    lemma_count_loadable_monotone(s, x + 1, i as int);
                                    lemma_count_loadable_monotone(s, 0, x);
                                    assert(count_loadable(s, x) < cl_pre);
                                    assert(segments@[count_loadable(s, x)] == osegs[count_loadable(
                                        s,
                                        x,
                                    )]);
                                }
                            }
                        }
                    },
                }
            }
            i = i + 1;
        }

        let (stack_data, sp): (Vec<u8>, u64) = stack_pair;
        let ghost bpre2 = pmm.bits();
        match pmm.alloc_frame(4) {
            Err(_) => {
                proof {
                    if crate::pmm::has_free_run(bits0, total_need) {
                        crate::pmm::lemma_has_free_run_gives_fit(bpre2, 4, 4);
                    }
                }
                release_task_frames(pmm, root_frame, segments, Ghost(snaps), Ghost(gframes));
                return Err(TaskError::AllocationExhausted);
            },
            Ok(sf) => {
                proof {
                    let osnaps = snaps;
                    let ofr = gframes;
                    assert(chain_link(bpre2, pmm.bits(), sf));
                    snaps = snaps.push(pmm.bits());
                    gframes = gframes.push(sf);
                    assert forall|j: int|
                        0 <= j < gframes.len() implies chain_link(
                        snaps[j],
                        snaps[j + 1],
                        gframes[j],
                    ) by {
                        if j < gframes.len() - 1 {
                            assert(chain_link(osnaps[j], osnaps[j + 1], ofr[j]));
                            assert(snaps[j] == osnaps[j]);
                            assert(snaps[j + 1] == osnaps[j + 1]);
                            assert(gframes[j] == ofr[j]);
                        } else {
                            assert(snaps[j] == bpre2);
                            assert(snaps[j + 1] == pmm.bits());
                            assert(gframes[j] == sf);
                        }
                    }
                    assert(alloc_chain(snaps, gframes));
                    assert forall|b: int|
                        0 <= b < bits0.len() * 64 implies frame_used(pmm.bits(), b) == (frame_used(
                        bits0,
                        b,
                    ) || frames_cover(gframes, b)) by {
                        lemma_frames_cover_push(ofr, sf, b);
                        assert(frame_used(bpre2, b) == (frame_used(bits0, b) || frames_cover(
                            ofr,
                            b,
                        )));
                        assert(frame_used(pmm.bits(), b) == (frame_used(bpre2, b) || in_range(
                            sf.first_frame(),
                            sf.frame_count(),
                            b,
                        )));
                    }
                    assert forall|b: int|
                        sf.first_frame() <= b < sf.first_frame()
                            + sf.frame_count() implies !frame_used(bits0, b) by {
                        assert(!frame_used(bpre2, b));
                        assert(frame_used(bpre2, b) == (frame_used(bits0, b) || frames_cover(
                            ofr,
                            b,
                        )));
                    }
                    assert(run_free(bits0, sf.first_frame(), sf.frame_count()));
                }
                let sseg = MappedSegment {
                    vaddr: STACK_BASE,
                    readable: true,
                    writable: true,
                    executable: false,
                    frame: sf,
                    data: stack_data,
                };
                let ghost osegs = segments@;
                segments.push(sseg);
                proof {
                    assert forall|x: int|
                        0 <= x < phnum && loadable(#[trigger] phdr_spec(s, x)) implies seg_matches(
                        s,
                        segments@[count_loadable(s, x)],
                        x,
                    ) by {
                        lemma_count_loadable_monotone(s, x + 1, phnum as int);
                        lemma_count_loadable_monotone(s, 0, x);
                        assert(segments@[count_loadable(s, x)] == osegs[count_loadable(s, x)]);
                    }
                }
                let id: u64 = *next_id;
                *next_id = id + 1;
                let entry: u64 = elf.entry();
                let t = Task {
                    id,
                    address_space: AddressSpace { root_frame, segments },
                    stack_pointer: sp,
                    entry_address: entry,
                    state: TaskState::Queued,
                };
                proof {
                    assert(task_frames(t) =~= gframes);
                    assert forall|j1: int, j2: int|
                        0 <= j1 < j2 < gframes.len() implies (#[trigger] gframes[j1]).first_frame()
                        + gframes[j1].frame_count() <= (#[trigger] gframes[j2]).first_frame()
                        || gframes[j2].first_frame() + gframes[j2].frame_count()
                        <= gframes[j1].first_frame() by {
                        lemma_chain_disjoint(snaps, gframes, j1, j2);
                    }
                }
                Ok(t)
            },
        }
    }
}


/// Frame `i` belongs to one of the runs in `frames` at position `n` or
/// later.
spec fn frames_cover_from(frames: Seq<Frame>, n: int, i: int) -> bool {
    exists|j: int|
        n <= j < frames.len() && in_range(frames[j].first_frame(), frames[j].frame_count(), i)
}

proof fn lemma_frames_cover_from_split(frames: Seq<Frame>, n: int, i: int)
    requires
        0 <= n < frames.len(),
    ensures
        frames_cover_from(frames, n, i) == (frames_cover_from(frames, n + 1, i) || in_range(
            frames[n].first_frame(),
            frames[n].frame_count(),
            i,
        )),
{
    if frames_cover_from(frames, n, i) {
        let j = choose|j: int|
            n <= j < frames.len() && in_range(frames[j].first_frame(), frames[j].frame_count(), i);
        if j > n {
            assert(n + 1 <= j < frames.len() && in_range(
                frames[j].first_frame(),
                frames[j].frame_count(),
                i,
            ));
            assert(frames_cover_from(frames, n + 1, i));
        }
    }
    if frames_cover_from(frames, n + 1, i) {
        let j = choose|j: int|
            n + 1 <= j < frames.len() && in_range(
                frames[j].first_frame(),
                frames[j].frame_count(),
                i,
            );
        assert(n <= j < frames.len() && in_range(
            frames[j].first_frame(),
            frames[j].frame_count(),
            i,
        ));
        assert(frames_cover_from(frames, n, i));
    }
    if in_range(frames[n].first_frame(), frames[n].frame_count(), i) {
        assert(n <= n < frames.len() && in_range(
            frames[n].first_frame(),
            frames[n].frame_count(),
            i,
        ));
        assert(frames_cover_from(frames, n, i));
    }
}

proof fn lemma_frames_cover_whole(frames: Seq<Frame>, i: int)
    ensures
        frames_cover_from(frames, 0, i) == frames_cover(frames, i),
{
    if frames_cover_from(frames, 0, i) {
        let j = choose|j: int|
            0 <= j < frames.len() && in_range(frames[j].first_frame(), frames[j].frame_count(), i);
        assert(frames_cover(frames, i));
    }
    if frames_cover(frames, i) {
        let j = choose|j: int|
            0 <= j < frames.len() && in_range(frames[j].first_frame(), frames[j].frame_count(), i);
        assert(frames_cover_from(frames, 0, i));
    }
}

impl Task {
    /// Destroy a task, reclaiming every frame it owns: exactly the bits of
    /// its page-table frame and its segments' runs are cleared. The task's
    /// frames come from `Task::new` unmodified, so their runs are aligned,
    /// in bounds and never the null frame.
    pub fn release(self, pmm: &mut Pmm)
        requires
            old(pmm).wf(),
            forall|j: int|
                0 <= j < task_frames(self).len() ==> frame_handle_ok(
                    #[trigger] task_frames(self)[j],
                ) && task_frames(self)[j].first_frame() + task_frames(self)[j].frame_count() <= old(
                    pmm,
                ).bits().len() * 64,
        ensures
            final(pmm).wf(),
            final(pmm).bits().len() == old(pmm).bits().len(),
            final(pmm).vaddr() == old(pmm).vaddr(),
            forall|i: int|
                0 <= i < final(pmm).bits().len() * 64 ==> frame_used(final(pmm).bits(), i) == (
                frame_used(old(pmm).bits(), i) && !frames_cover(task_frames(self), i)),
    {
        let ghost bits0 = pmm.bits();
        let ghost gframes = task_frames(self);
        let Task { address_space: AddressSpace { root_frame, segments }, .. } = self;
        let mut segments = segments;
        proof {
            assert(gframes.len() == segments@.len() + 1);
            assert(gframes[0] == root_frame);
            assert forall|t: int| 0 <= t < segments@.len() implies gframes[t + 1]
                == segments@[t].frame by {
                assert(gframes[t + 1] == segments@.map_values(|sg: MappedSegment| sg.frame)[t]);
            }
        }
        while segments.len() > 0
            invariant
                pmm.wf(),
                pmm.bits().len() == bits0.len(),
                pmm.vaddr() == old(pmm).vaddr(),
                gframes.len() == task_frames(self).len(),
                segments@.len() + 1 <= gframes.len(),
                gframes[0] == root_frame,
                forall|t: int| 0 <= t < segments@.len() ==> gframes[t + 1] == segments@[t].frame,
                forall|j: int|
                    0 <= j < gframes.len() ==> frame_handle_ok(#[trigger] gframes[j])
                        && gframes[j].first_frame() + gframes[j].frame_count() <= bits0.len() * 64,
                gframes == task_frames(self),
                forall|i: int|
                    0 <= i < bits0.len() * 64 ==> frame_used(pmm.bits(), i) == (frame_used(
                        bits0,
                        i,
                    ) && !frames_cover_from(gframes, segments@.len() as int + 1, i)),
            decreases segments@.len(),
        {
            let ghost cur = segments@.len() as int;
            let seg = segments.pop().unwrap();
            proof {
                assert(seg.frame == gframes[cur - 1 + 1]);
            }
            let ghost pre = pmm.bits();
            pmm.dealloc_frame(seg.frame);
            proof {
                assert forall|i: int|
                    0 <= i < bits0.len() * 64 implies frame_used(pmm.bits(), i) == (frame_used(
                    bits0,
                    i,
                ) && !frames_cover_from(gframes, cur, i)) by {
                    lemma_frames_cover_from_split(gframes, cur, i);
                    assert(frame_used(pre, i) == (frame_used(bits0, i) && !frames_cover_from(
                        gframes,
                        cur + 1,
                        i,
                    )));
                    assert(frame_used(pmm.bits(), i) == (frame_used(pre, i) && !in_range(
                        gframes[cur].first_frame(),
                        gframes[cur].frame_count(),
                        i,
                    )));
                }
                assert forall|i: int|
                    0 <= i < bits0.len() * 64 implies frame_used(pmm.bits(), i) == (frame_used(
                    bits0,
                    i,
                ) && !frames_cover_from(gframes, segments@.len() as int + 1, i)) by {
                    assert(segments@.len() as int + 1 == cur);
                    assert(frame_used(pmm.bits(), i) == (frame_used(bits0, i)
                        && !frames_cover_from(gframes, cur, i)));
                }
            }
        }
        let ghost pre = pmm.bits();
        pmm.dealloc_frame(root_frame);
        proof {
            assert forall|i: int|
                0 <= i < bits0.len() * 64 implies frame_used(pmm.bits(), i) == (frame_used(
                bits0,
                i,
            ) && !frames_cover(gframes, i)) by {
                lemma_frames_cover_from_split(gframes, 0, i);
                lemma_frames_cover_whole(gframes, i);
                assert(frame_used(pre, i) == (frame_used(bits0, i) && !frames_cover_from(
                    gframes,
                    1,
                    i,
                )));
                assert(frame_used(pmm.bits(), i) == (frame_used(pre, i) && !in_range(
                    gframes[0].first_frame(),
                    gframes[0].frame_count(),
                    i,
                )));
            }
        }
    }
}

} // verus!
