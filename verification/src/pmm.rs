//! Physical-memory manager: a bitmap over all physical frames, one bit per
//! 4096-byte frame (1 = used, 0 = free), supporting first-fit allocation of
//! contiguous frame runs.

use vstd::prelude::*;

use crate::bitops::bit_set;
use crate::bitops::lemma_all_ones_bit;
use crate::bitops::lemma_bit_is_zero_or_one;
use crate::bitops::lemma_clear_bit;
use crate::bitops::lemma_set_bit;

verus! {

/// Size of a physical frame in bytes.
pub const FRAME_SIZE: usize = 4096;

/// Whether bit `i` of the frame bitmap is set, i.e. frame `i` is used.
pub open spec fn frame_used(bm: Seq<u64>, i: int) -> bool {
    bit_set(bm[i / 64], (i % 64) as u64)
}

/// All of the `n` frames starting at `start` are free.
pub open spec fn run_free(bm: Seq<u64>, start: int, n: int) -> bool {
    forall|i: int| start <= i < start + n ==> !frame_used(bm, i)
}

/// Some frame among the `n` starting at `start` is used.
pub open spec fn window_blocked(bm: Seq<u64>, start: int, n: int) -> bool {
    exists|i: int| start <= i < start + n && frame_used(bm, i)
}

/// `start` is the lowest index where `n` consecutive free frames begin.
pub open spec fn first_fit_at(bm: Seq<u64>, start: int, n: int) -> bool {
    &&& 0 <= start
    &&& run_free(bm, start, n)
    &&& forall|t: int| 0 <= t < start ==> window_blocked(bm, t, n)
}

/// No run of `n` consecutive free frames exists anywhere in the bitmap.
pub open spec fn no_fit(bm: Seq<u64>, n: int) -> bool {
    forall|s: int| 0 <= s && s + n <= bm.len() * 64 ==> window_blocked(bm, s, n)
}

/// Whether `i` lies in the half-open run of `count` indices from `start`.
pub open spec fn in_range(start: int, count: int, i: int) -> bool {
    start <= i && i < start + count
}

/// `new` is `old` with bits `start .. start + count` set (those frames
/// marked used) and every other bit unchanged.
pub open spec fn marks_range_used(bm_old: Seq<u64>, bm_new: Seq<u64>, start: int, count: int) -> bool {
    &&& bm_new.len() == bm_old.len()
    &&& forall|i: int|
        0 <= i < bm_new.len() * 64 ==> frame_used(bm_new, i) == (frame_used(bm_old, i) || in_range(
            start,
            count,
            i,
        ))
}

/// `new` is `old` with bits `start .. start + count` cleared (those frames
/// marked free) and every other bit unchanged.
pub open spec fn marks_range_free(bm_old: Seq<u64>, bm_new: Seq<u64>, start: int, count: int) -> bool {
    &&& bm_new.len() == bm_old.len()
    &&& forall|i: int|
        0 <= i < bm_new.len() * 64 ==> frame_used(bm_new, i) == (frame_used(bm_old, i)
            && !in_range(start, count, i))
}

/// Classification of a boot-supplied memory region; only `Usable` regions
/// seed free frames.
#[derive(Clone, Copy, Debug, PartialEq, Eq, Structural)]
pub enum RegionKind {
    Usable,
    Reserved,
    AcpiReclaimable,
    AcpiNvs,
    BadMemory,
    BootloaderReclaimable,
    KernelAndModules,
    Framebuffer,
}

/// One entry of the boot-supplied memory map: a physical range and its kind.
#[derive(Clone, Copy, Debug, PartialEq, Eq, Structural)]
pub struct MemoryRegion {
    pub base: u64,
    pub length: u64,
    pub kind: RegionKind,
}

pub open spec fn is_usable(r: MemoryRegion) -> bool {
    r.kind is Usable
}

/// Highest end address among the first `n` usable regions (0 when none).
pub open spec fn usable_top_upto(mm: Seq<MemoryRegion>, n: int) -> int
    decreases n,
{
    if n <= 0 {
        0
    } else {
        let prev = usable_top_upto(mm, n - 1);
        if is_usable(mm[n - 1]) && mm[n - 1].base + mm[n - 1].length > prev {
            mm[n - 1].base + mm[n - 1].length
        } else {
            prev
        }
    }
}

/// Highest end address of any usable region.
pub open spec fn usable_top(mm: Seq<MemoryRegion>) -> int {
    usable_top_upto(mm, mm.len() as int)
}

/// Length of the largest usable region among the first `n` (0 when none).
pub open spec fn biggest_len_upto(mm: Seq<MemoryRegion>, n: int) -> int
    decreases n,
{
    if n <= 0 {
        0
    } else {
        let prev = biggest_len_upto(mm, n - 1);
        if is_usable(mm[n - 1]) && mm[n - 1].length > prev {
            mm[n - 1].length as int
        } else {
            prev
        }
    }
}

/// Index of the first largest usable region among the first `n` (-1 when
/// none). This region hosts the bitmap's backing storage.
pub open spec fn host_idx_upto(mm: Seq<MemoryRegion>, n: int) -> int
    decreases n,
{
    if n <= 0 {
        -1
    } else if is_usable(mm[n - 1]) && mm[n - 1].length > biggest_len_upto(mm, n - 1) {
        n - 1
    } else {
        host_idx_upto(mm, n - 1)
    }
}

/// Index of the region hosting the bitmap.
pub open spec fn host_idx(mm: Seq<MemoryRegion>) -> int {
    host_idx_upto(mm, mm.len() as int)
}

/// One more frame than the highest usable address reaches.
pub open spec fn total_frames(mm: Seq<MemoryRegion>) -> int {
    usable_top(mm) / 4096 + 1
}

/// Words the bitmap needs to give every frame a bit.
pub open spec fn bitmap_words(mm: Seq<MemoryRegion>) -> int {
    (total_frames(mm) + 63) / 64
}

/// First frame that region `j` lets `init` free: for the hosting region,
/// the first frame past the bitmap's own byte extent.
pub open spec fn region_first_free(mm: Seq<MemoryRegion>, j: int) -> int {
    if j == host_idx(mm) {
        (mm[j].base + bitmap_words(mm) * 8 + 4095) / 4096
    } else {
        mm[j].base as int / 4096
    }
}

/// One past the last frame of region `j`.
pub open spec fn region_end_frame(mm: Seq<MemoryRegion>, j: int) -> int {
    (mm[j].base + mm[j].length) / 4096
}

/// Region `j` lets `init` free frame `i`.
pub open spec fn region_frees(mm: Seq<MemoryRegion>, j: int, i: int) -> bool {
    &&& 0 <= j < mm.len()
    &&& is_usable(mm[j])
    &&& region_first_free(mm, j) <= i < region_end_frame(mm, j)
}

/// Some region among the first `n` lets `init` free frame `i`.
pub open spec fn freed_upto(mm: Seq<MemoryRegion>, n: int, i: int) -> bool {
    exists|j: int| j < n && region_frees(mm, j, i)
}

/// Frame `i` is free right after `init`: some usable region covers it
/// outside the bitmap's own bytes, and it is not the null frame.
pub open spec fn init_frame_free(mm: Seq<MemoryRegion>, i: int) -> bool {
    i != 0 && freed_upto(mm, mm.len() as int, i)
}

/// What `init` asks of the boot-supplied memory map: at least one usable
/// region; usable regions frame-aligned and below the top of the physical
/// address space that frame arithmetic can index; the whole bitmap
/// addressable; and the largest usable region big enough to host it.
pub open spec fn boot_map_ok(mm: Seq<MemoryRegion>) -> bool {
    &&& 0 <= host_idx(mm)
    &&& forall|j: int|
        0 <= j < mm.len() && is_usable(#[trigger] mm[j]) ==> mm[j].base % 4096 == 0
            && mm[j].length % 4096 == 0 && mm[j].base + mm[j].length <= 0xFFFF_FFFF_FFF0_0000
    &&& total_frames(mm) + 63 <= usize::MAX
    &&& mm[host_idx(mm)].length >= bitmap_words(mm) * 8
}

/// The chosen host index points at a usable region.
proof fn lemma_host_idx_usable(mm: Seq<MemoryRegion>, n: int)
    requires
        n <= mm.len(),
        0 <= host_idx_upto(mm, n),
    ensures
        host_idx_upto(mm, n) < n,
        is_usable(mm[host_idx_upto(mm, n)]),
    decreases n,
{
    if n > 0 {
        if is_usable(mm[n - 1]) && mm[n - 1].length > biggest_len_upto(mm, n - 1) {
        } else {
            lemma_host_idx_usable(mm, n - 1);
        }
    }
}

/// Every usable region ends at or below the usable top.
proof fn lemma_usable_region_below_top(mm: Seq<MemoryRegion>, n: int, j: int)
    requires
        0 <= j < n <= mm.len(),
        is_usable(mm[j]),
    ensures
        mm[j].base + mm[j].length <= usable_top_upto(mm, n),
        usable_top_upto(mm, n) <= usable_top(mm),
{
    lemma_usable_region_below_top_down(mm, n, j);
    lemma_usable_top_monotone(mm, n, mm.len() as int);
}

/// The usable top over a longer prefix is no smaller.
proof fn lemma_usable_top_monotone(mm: Seq<MemoryRegion>, n1: int, n2: int)
    requires
        n1 <= n2,
    ensures
        usable_top_upto(mm, n1) <= usable_top_upto(mm, n2),
    decreases n2 - n1,
{
    if n1 < n2 {
        lemma_usable_top_monotone(mm, n1, n2 - 1);
    }
}

proof fn lemma_usable_region_below_top_down(mm: Seq<MemoryRegion>, n: int, j: int)
    requires
        0 <= j < n <= mm.len(),
        is_usable(mm[j]),
    ensures
        mm[j].base + mm[j].length <= usable_top_upto(mm, n),
    decreases n,
{
    if j < n - 1 {
        lemma_usable_region_below_top_down(mm, n - 1, j);
    }
}

/// Derived size bounds that `boot_map_ok` guarantees.
proof fn lemma_boot_map_bounds(mm: Seq<MemoryRegion>)
    requires
        boot_map_ok(mm),
    ensures
        0 <= usable_top(mm) <= 0xFFFF_FFFF_FFF0_0000,
        1 <= total_frames(mm),
        usable_top(mm) / 4096 < total_frames(mm),
        1 <= bitmap_words(mm),
        total_frames(mm) <= bitmap_words(mm) * 64,
        bitmap_words(mm) * 64 <= total_frames(mm) + 63,
        bitmap_words(mm) * 64 <= usize::MAX,
        bitmap_words(mm) * 64 * 4096 <= u64::MAX,
        bitmap_words(mm) * 8 <= u64::MAX,
{
    let top = usable_top(mm);
    let total = total_frames(mm);
    let words = bitmap_words(mm);
    lemma_usable_top_monotone(mm, 0, mm.len() as int);
    lemma_usable_top_bounded(mm, mm.len() as int);
    vstd::arithmetic::div_mod::lemma_div_pos_is_pos(top, 4096);
    vstd::arithmetic::div_mod::lemma_div_is_ordered(top, 0xFFFF_FFFF_FFF0_0000, 4096);
    vstd::arithmetic::div_mod::lemma_fundamental_div_mod_converse_div(
        0xFFFF_FFFF_FFF0_0000,
        4096,
        0xF_FFFF_FFFF_FF00,
        0,
    );
    vstd::arithmetic::div_mod::lemma_fundamental_div_mod(total + 63, 64);
    vstd::arithmetic::div_mod::lemma_mod_division_less_than_divisor(total + 63, 64);
    vstd::arithmetic::div_mod::lemma_div_is_ordered(64, total + 63, 64);
    vstd::arithmetic::div_mod::lemma_fundamental_div_mod_converse_div(64, 64, 1, 0);
}

/// The usable top stays below the bound `boot_map_ok` puts on usable
/// region ends.
proof fn lemma_usable_top_bounded(mm: Seq<MemoryRegion>, n: int)
    requires
        forall|j: int|
            0 <= j < mm.len() && is_usable(#[trigger] mm[j]) ==> mm[j].base + mm[j].length
                <= 0xFFFF_FFFF_FFF0_0000,
        n <= mm.len(),
    ensures
        usable_top_upto(mm, n) <= 0xFFFF_FFFF_FFF0_0000,
    decreases n,
{
    if n > 0 {
        lemma_usable_top_bounded(mm, n - 1);
    }
}

/// Unfolding `freed_upto` one region at a time.
proof fn lemma_freed_upto_step(mm: Seq<MemoryRegion>, n: int, i: int)
    ensures
        freed_upto(mm, n + 1, i) == (freed_upto(mm, n, i) || region_frees(mm, n, i)),
{
    if freed_upto(mm, n + 1, i) {
        let j = choose|j: int| j < n + 1 && region_frees(mm, j, i);
        if j < n {
            assert(j < n && region_frees(mm, j, i));
            assert(freed_upto(mm, n, i));
        }
    }
    if freed_upto(mm, n, i) {
        let j = choose|j: int| j < n && region_frees(mm, j, i);
        assert(j < n + 1 && region_frees(mm, j, i));
        assert(freed_upto(mm, n + 1, i));
    }
    if region_frees(mm, n, i) {
        assert(n < n + 1 && region_frees(mm, n, i));
        assert(freed_upto(mm, n + 1, i));
    }
}

/// A handle for a run of physical frames: a base address and a size in
/// bytes. Handles cross the allocator boundary opaque; callers must not
/// fabricate or alter one.
#[derive(Debug)]
pub struct Frame {
    phy_ptr: u64,
    size: usize,
}

impl Frame {
    /// Physical base address of the run.
    pub closed spec fn base(&self) -> u64 {
        self.phy_ptr
    }

    /// Size of the run in bytes.
    pub closed spec fn size_bytes(&self) -> usize {
        self.size
    }

    /// Index of the first frame of the run.
    pub open spec fn first_frame(&self) -> int {
        self.base() as int / 4096
    }

    /// Number of whole frames in the run.
    pub open spec fn frame_count(&self) -> int {
        self.size_bytes() as int / 4096
    }

    pub fn from_u64(ptr: u64, size: usize) -> (f: Frame)
        ensures
            f.base() == ptr,
            f.size_bytes() == size,
    {
        Frame { phy_ptr: ptr, size }
    }

    /// Physical base address of the run.
    pub fn phys_addr(&self) -> (r: u64)
        ensures
            r == self.base(),
    {
        self.phy_ptr
    }

    /// Size of the run in bytes.
    pub fn len_bytes(&self) -> (r: usize)
        ensures
            r == self.size_bytes(),
    {
        self.size
    }
}

/// Returned by `alloc_frame` when no sufficiently long run of free frames
/// exists, or when zero frames are requested.
#[derive(Debug)]
pub struct PmmAllocError;

/// The physical-memory manager. Owns the frame bitmap; bit `i` records the
/// state of the frame at address `i * 4096`.
pub struct Pmm {
    bitmap: Vec<u64>,
    bitmap_vaddr: u64,
}

impl Pmm {
    /// The bitmap words.
    pub closed spec fn bits(&self) -> Seq<u64> {
        self.bitmap@
    }

    /// Virtual address (through the direct map) where the bitmap's backing
    /// storage was placed at boot.
    pub closed spec fn vaddr(&self) -> u64 {
        self.bitmap_vaddr
    }

    /// Well-formed: the null frame is marked used, and the bitmap is small
    /// enough that every frame index, bit index and byte address fits the
    /// machine's integer types.
    pub open spec fn wf(&self) -> bool {
        &&& self.bits().len() >= 1
        &&& self.bits().len() * 64 <= usize::MAX
        &&& self.bits().len() * 64 * 4096 <= u64::MAX
        &&& frame_used(self.bits(), 0)
    }

    /// Number of words in the bitmap.
    pub fn bitmap_len(&self) -> (n: usize)
        ensures
            n == self.bits().len(),
    {
        self.bitmap.len()
    }

    /// Virtual address of the bitmap's backing storage.
    pub fn bitmap_vaddr(&self) -> (r: u64)
        ensures
            r == self.vaddr(),
    {
        self.bitmap_vaddr
    }

    /// Whether frame `frame_idx` is currently marked used.
    pub fn frame_is_used(&self, frame_idx: usize) -> (b: bool)
        requires
            self.bits().len() * 64 <= usize::MAX,
            frame_idx < self.bits().len() * 64,
        ensures
            b == frame_used(self.bits(), frame_idx as int),
    {
        let big: usize = frame_idx / 64;
        let sma: u64 = (frame_idx % 64) as u64;
        proof {
            vstd::arithmetic::div_mod::lemma_multiply_divide_lt(frame_idx as int, 64, self.bits().len() as int);
            lemma_bit_is_zero_or_one(self.bits()[big as int], sma);
        }
        (self.bitmap[big] >> sma) & 1u64 == 1u64
    }

    /// Clear bitmap bits `start .. start + count` (mark those frames free);
    /// every other bit keeps its value.
    fn clear_bits(&mut self, start: usize, count: usize)
        requires
            start + count <= old(self).bits().len() * 64,
            old(self).bits().len() * 64 <= usize::MAX,
        ensures
            final(self).vaddr() == old(self).vaddr(),
            marks_range_free(old(self).bits(), final(self).bits(), start as int, count as int),
    {
        let ghost bm0 = self.bitmap@;
        let mut k: usize = 0;
        while k < count
            invariant
                k <= count,
                start + count <= bm0.len() * 64,
                bm0.len() * 64 <= usize::MAX,
                self.bitmap_vaddr == old(self).bitmap_vaddr,
                marks_range_free(bm0, self.bitmap@, start as int, k as int),
            decreases count - k,
        {
            let frame: usize = start + k;
            let big: usize = frame / 64;
            let sma: u64 = (frame % 64) as u64;
            proof {
                vstd::arithmetic::div_mod::lemma_multiply_divide_lt(frame as int, 64, bm0.len() as int);
                vstd::arithmetic::div_mod::lemma_fundamental_div_mod(frame as int, 64);
            }
            let ghost bmp = self.bitmap@;
            let w: u64 = self.bitmap[big];
            self.bitmap[big] = w & !(1u64 << sma);
            proof {
                assert(marks_range_free(bm0, bmp, start as int, k as int));
                assert forall|i: int|
                    0 <= i < self.bitmap@.len() * 64 implies frame_used(self.bitmap@, i) == (
                    frame_used(bm0, i) && !in_range(start as int, (k + 1) as int, i)) by {
                    assert(frame_used(bmp, i) == (frame_used(bm0, i) && !in_range(
                        start as int,
                        k as int,
                        i,
                    )));
                    vstd::arithmetic::div_mod::lemma_fundamental_div_mod(i, 64);
                    if i / 64 == big {
                        lemma_clear_bit(w, sma, (i % 64) as u64);
                    }
                }
                assert(marks_range_free(bm0, self.bitmap@, start as int, (k + 1) as int));
            }
            k = k + 1;
        }
    }

    /// Set bitmap bits `start .. start + count` (mark those frames used);
    /// every other bit keeps its value.
    fn set_bits(&mut self, start: usize, count: usize)
        requires
            start + count <= old(self).bits().len() * 64,
            old(self).bits().len() * 64 <= usize::MAX,
        ensures
            final(self).vaddr() == old(self).vaddr(),
            marks_range_used(old(self).bits(), final(self).bits(), start as int, count as int),
    {
        let ghost bm0 = self.bitmap@;
        let mut k: usize = 0;
        while k < count
            invariant
                k <= count,
                start + count <= bm0.len() * 64,
                bm0.len() * 64 <= usize::MAX,
                self.bitmap_vaddr == old(self).bitmap_vaddr,
                marks_range_used(bm0, self.bitmap@, start as int, k as int),
            decreases count - k,
        {
            let frame: usize = start + k;
            let big: usize = frame / 64;
            let sma: u64 = (frame % 64) as u64;
            proof {
                vstd::arithmetic::div_mod::lemma_multiply_divide_lt(frame as int, 64, bm0.len() as int);
                vstd::arithmetic::div_mod::lemma_fundamental_div_mod(frame as int, 64);
            }
            let ghost bmp = self.bitmap@;
            let w: u64 = self.bitmap[big];
            self.bitmap[big] = w | (1u64 << sma);
            proof {
                assert(marks_range_used(bm0, bmp, start as int, k as int));
                assert forall|i: int|
                    0 <= i < self.bitmap@.len() * 64 implies frame_used(self.bitmap@, i) == (
                    frame_used(bm0, i) || in_range(start as int, (k + 1) as int, i)) by {
                    assert(frame_used(bmp, i) == (frame_used(bm0, i) || in_range(
                        start as int,
                        k as int,
                        i,
                    )));
                    vstd::arithmetic::div_mod::lemma_fundamental_div_mod(i, 64);
                    if i / 64 == big {
                        lemma_set_bit(w, sma, (i % 64) as u64);
                    }
                }
                assert(marks_range_used(bm0, self.bitmap@, start as int, (k + 1) as int));
            }
            k = k + 1;
        }
    }

    /// Mark the whole-frame run covered by `base` as free.
    fn set_free(&mut self, base: Frame)
        requires
            old(self).bits().len() * 64 <= usize::MAX,
            base.first_frame() + base.frame_count() <= old(self).bits().len() * 64,
        ensures
            final(self).vaddr() == old(self).vaddr(),
            marks_range_free(
                old(self).bits(),
                final(self).bits(),
                base.first_frame(),
                base.frame_count(),
            ),
    {
        let frame_start: usize = (base.phys_addr() / (FRAME_SIZE as u64)) as usize;
        let n_frames: usize = base.len_bytes() / FRAME_SIZE;
        self.clear_bits(frame_start, n_frames);
    }

    /// Mark the whole-frame run covered by `frame_ptr` as used.
    fn set_used(&mut self, frame_ptr: &Frame)
        requires
            old(self).bits().len() * 64 <= usize::MAX,
            frame_ptr.first_frame() + frame_ptr.frame_count() <= old(self).bits().len() * 64,
        ensures
            final(self).vaddr() == old(self).vaddr(),
            marks_range_used(
                old(self).bits(),
                final(self).bits(),
                frame_ptr.first_frame(),
                frame_ptr.frame_count(),
            ),
    {
        let frame_start: usize = (frame_ptr.phys_addr() / (FRAME_SIZE as u64)) as usize;
        let n_frames: usize = frame_ptr.len_bytes() / FRAME_SIZE;
        self.set_bits(frame_start, n_frames);
    }

    /// Scan the bitmap low-to-high for the first run of `n_frames`
    /// consecutive free frames. Returns the lowest-address fit without
    /// marking anything; `None` when no such run exists or `n_frames` is 0.
    pub fn find_free_frame(&self, n_frames: usize) -> (r: Option<Frame>)
        requires
            self.wf(),
            n_frames * 4096 <= usize::MAX,
        ensures
            n_frames == 0 ==> r is None,
            r matches Some(f) ==> {
                &&& n_frames >= 1
                &&& f.base() == f.first_frame() * 4096
                &&& f.size_bytes() == n_frames * 4096
                &&& f.first_frame() + n_frames <= self.bits().len() * 64
                &&& first_fit_at(self.bits(), f.first_frame(), n_frames as int)
            },
            r is None ==> n_frames == 0 || no_fit(self.bits(), n_frames as int),
    {
        if n_frames == 0 {
            return None;
        }
        let len: usize = self.bitmap.len();
        let mut zero_count: usize = 0;
        let mut i: usize = 0;
        while i < len
            invariant
                self.wf(),
                len == self.bits().len(),
                1 <= n_frames,
                n_frames * 4096 <= usize::MAX,
                i <= len,
                zero_count <= i * 64,
                zero_count < n_frames,
                run_free(self.bits(), i * 64 - zero_count, zero_count as int),
                zero_count < i * 64 ==> frame_used(self.bits(), i * 64 - zero_count - 1),
                forall|s: int|
                    0 <= s && s + n_frames <= i * 64 ==> window_blocked(
                        self.bits(),
                        s,
                        n_frames as int,
                    ),
            decreases len - i,
        {
            let word: u64 = self.bitmap[i];
            if word != 0xffff_ffff_ffff_ffff {
                let mut j: usize = 0;
                while j < 64
                    invariant
                        self.wf(),
                        len == self.bits().len(),
                        1 <= n_frames,
                        n_frames * 4096 <= usize::MAX,
                        i < len,
                        j <= 64,
                        word == self.bits()[i as int],
                        zero_count <= i * 64 + j,
                        zero_count < n_frames,
                        run_free(self.bits(), i * 64 + j - zero_count, zero_count as int),
                        zero_count < i * 64 + j ==> frame_used(
                            self.bits(),
                            i * 64 + j - zero_count - 1,
                        ),
                        forall|s: int|
                            0 <= s && s + n_frames <= i * 64 + j ==> window_blocked(
                                self.bits(),
                                s,
                                n_frames as int,
                            ),
                    decreases 64 - j,
                {
                    let ghost pos = i * 64 + j;
                    proof {
                        crate::bitops::lemma_word_bit_index(i as int, j as int);
                        lemma_bit_is_zero_or_one(word, j as u64);
                        assert(frame_used(self.bits(), pos as int) == bit_set(word, j as u64));
                    }
                    if (word >> (j as u64)) & 1u64 == 0u64 {
                        zero_count = zero_count + 1;
                        if zero_count >= n_frames {
                            let start: usize = (i * 64 + j + 1) - n_frames;
                            proof {
                                assert(run_free(self.bits(), start as int, n_frames as int));
                                assert forall|t: int| 0 <= t < start implies window_blocked(
                                    self.bits(),
                                    t,
                                    n_frames as int,
                                ) by {
                                    assert(t + n_frames <= pos);
                                }
                                assert(start + n_frames <= len * 64);
                                vstd::arithmetic::mul::lemma_mul_inequality(
                                    start as int + n_frames,
                                    len as int * 64,
                                    4096,
                                );
                                vstd::arithmetic::div_mod::lemma_fundamental_div_mod_converse_div(
                                    start as int * 4096,
                                    4096,
                                    start as int,
                                    0,
                                );
                            }
                            let base: u64 = (start as u64) * 4096u64;
                            return Some(Frame::from_u64(base, n_frames * FRAME_SIZE));
                        }
                    } else {
                        zero_count = 0;
                        proof {
                            assert forall|s: int|
                                0 <= s && s + n_frames <= pos + 1 implies window_blocked(
                                self.bits(),
                                s,
                                n_frames as int,
                            ) by {
                                if s + n_frames == pos + 1 {
                                    assert(s <= pos < s + n_frames);
                                    assert(frame_used(self.bits(), pos as int));
                                }
                            }
                        }
                    }
                    j = j + 1;
                }
            } else {
                proof {
                    assert forall|t: int|
                        i * 64 <= t < i * 64 + 64 implies frame_used(self.bits(), t) by {
                        vstd::arithmetic::div_mod::lemma_fundamental_div_mod(t, 64);
                        vstd::arithmetic::div_mod::lemma_multiply_divide_lt(t, 64, i as int + 1);
                        assert(t / 64 == i) by {
                            vstd::arithmetic::div_mod::lemma_div_is_ordered(
                                i * 64,
                                t,
                                64,
                            );
                            vstd::arithmetic::div_mod::lemma_div_multiples_vanish(i as int, 64);
                        }
                        lemma_all_ones_bit((t % 64) as u64);
                    }
                    assert forall|s: int|
                        0 <= s && s + n_frames <= (i + 1) * 64 implies window_blocked(
                        self.bits(),
                        s,
                        n_frames as int,
                    ) by {
                        if s + n_frames > i * 64 {
                            assert(i * 64 <= s + n_frames - 1 < i * 64 + 64);
                            assert(frame_used(self.bits(), s + n_frames - 1));
                        }
                    }
                }
                zero_count = 0;
            }
            i = i + 1;
        }
        None
    }

    /// Allocate `n_frames` contiguous frames, first-fit: the returned run is
    /// the lowest-address run of free frames long enough, its bits are now
    /// marked used and no other bit changed. Fails, leaving the bitmap
    /// untouched, when `n_frames` is 0 or no fit exists.
    pub fn alloc_frame(&mut self, n_frames: usize) -> (r: Result<Frame, PmmAllocError>)
        requires
            old(self).wf(),
            n_frames * 4096 <= usize::MAX,
        ensures
            final(self).wf(),
            final(self).bits().len() == old(self).bits().len(),
            final(self).vaddr() == old(self).vaddr(),
            n_frames == 0 ==> r is Err,
            r is Err ==> final(self).bits() == old(self).bits() && (n_frames == 0 || no_fit(
                old(self).bits(),
                n_frames as int,
            )),
            r matches Ok(f) ==> {
                &&& n_frames >= 1
                &&& f.base() == f.first_frame() * 4096
                &&& f.base() >= 4096
                &&& f.size_bytes() == n_frames * 4096
                &&& f.frame_count() == n_frames
                &&& f.first_frame() + n_frames <= old(self).bits().len() * 64
                &&& first_fit_at(old(self).bits(), f.first_frame(), n_frames as int)
                &&& marks_range_used(
                    old(self).bits(),
                    final(self).bits(),
                    f.first_frame(),
                    n_frames as int,
                )
            },
    {
        match self.find_free_frame(n_frames) {
            None => Err(PmmAllocError {}),
            Some(frame) => {
                proof {
                    vstd::arithmetic::div_mod::lemma_fundamental_div_mod_converse_div(
                        n_frames as int * 4096,
                        4096,
                        n_frames as int,
                        0,
                    );
                    if frame.first_frame() == 0 {
                        assert(!frame_used(self.bits(), 0));
                    }
                }
                self.set_used(&frame);
                Ok(frame)
            },
        }
    }

    /// Mark the run covered by `frame_ptr` free again. The caller hands back
    /// a handle exactly as `alloc_frame` returned it; exactly its
    /// `frame_count` bits starting at `base / 4096` are cleared.
    pub fn dealloc_frame(&mut self, frame_ptr: Frame)
        requires
            old(self).wf(),
            frame_ptr.first_frame() >= 1,
            frame_ptr.first_frame() + frame_ptr.frame_count() <= old(self).bits().len() * 64,
        ensures
            final(self).wf(),
            final(self).bits().len() == old(self).bits().len(),
            final(self).vaddr() == old(self).vaddr(),
            marks_range_free(
                old(self).bits(),
                final(self).bits(),
                frame_ptr.first_frame(),
                frame_ptr.frame_count(),
            ),
    {
        self.set_free(frame_ptr);
    }
}


/// Build the frame allocator from the boot-supplied memory map. Sizes the
/// bitmap from the highest usable address, places its backing storage at
/// the front of the single largest usable region (addressed through the
/// direct map), marks everything used, then frees each usable region's
/// frames - the hosting region only past the bitmap's own bytes - and
/// finally forces the null frame used.
pub fn init(memory_map: &Vec<MemoryRegion>, direct_map_offset: u64) -> (pmm: Pmm)
    requires
        boot_map_ok(memory_map@),
        memory_map@[host_idx(memory_map@)].base + direct_map_offset <= u64::MAX,
    ensures
        pmm.wf(),
        pmm.bits().len() == bitmap_words(memory_map@),
        pmm.vaddr() == memory_map@[host_idx(memory_map@)].base + direct_map_offset,
        forall|i: int|
            0 <= i < pmm.bits().len() * 64 ==> frame_used(pmm.bits(), i) == !init_frame_free(
                memory_map@,
                i,
            ),
{
    let ghost mm = memory_map@;
    proof {
        lemma_boot_map_bounds(mm);
        lemma_host_idx_usable(mm, mm.len() as int);
    }
    let n_regions: usize = memory_map.len();

    let mut host: usize = 0;
    let mut biggest_len: u64 = 0;
    let mut top: u64 = 0;
    let mut k: usize = 0;
    while k < n_regions
        invariant
            k <= n_regions,
            n_regions == mm.len(),
            mm == memory_map@,
            boot_map_ok(mm),
            top == usable_top_upto(mm, k as int),
            biggest_len == biggest_len_upto(mm, k as int),
            host_idx_upto(mm, k as int) >= 0 ==> host == host_idx_upto(mm, k as int),
        decreases n_regions - k,
    {
        let e: MemoryRegion = memory_map[k];
        proof {
            assert(e == mm[k as int]);
        }
        match e.kind {
            RegionKind::Usable => {
                if e.length > biggest_len {
                    biggest_len = e.length;
                    host = k;
                }
                let t: u64 = e.base + e.length;
                if t > top {
                    top = t;
                }
            },
            _ => {},
        }
        k = k + 1;
    }
    proof {
        assert(top == usable_top(mm));
        assert(host == host_idx(mm));
        lemma_usable_region_below_top(mm, mm.len() as int, host_idx(mm));
    }

    let total: u64 = top / 4096 + 1;
    let words64: u64 = (total + 63) / 64;
    proof {
        assert(total == total_frames(mm));
        assert(words64 == bitmap_words(mm));
    }
    let words: usize = words64 as usize;

    let mut bitmap: Vec<u64> = Vec::new();
    let mut w: usize = 0;
    while w < words
        invariant
            w <= words,
            bitmap@.len() == w as int,
            forall|x: int| 0 <= x < w ==> bitmap@[x] == 0xffff_ffff_ffff_ffffu64,
        decreases words - w,
    {
        bitmap.push(0xffff_ffff_ffff_ffff);
        w = w + 1;
    }

    let host_base: u64 = memory_map[host].base;
    let mut pmm = Pmm { bitmap, bitmap_vaddr: host_base + direct_map_offset };
    proof {
        assert forall|i: int| 0 <= i < pmm.bitmap@.len() * 64 implies frame_used(pmm.bitmap@, i)
            == !freed_upto(mm, 0, i) by {
            vstd::arithmetic::div_mod::lemma_fundamental_div_mod(i, 64);
            vstd::arithmetic::div_mod::lemma_multiply_divide_lt(i, 64, words as int);
            lemma_all_ones_bit((i % 64) as u64);
            if freed_upto(mm, 0, i) {
                let j = choose|j: int| j < 0 && region_frees(mm, j, i);
                assert(false);
            }
        }
    }

    let mut k2: usize = 0;
    while k2 < n_regions
        invariant
            k2 <= n_regions,
            n_regions == mm.len(),
            mm == memory_map@,
            boot_map_ok(mm),
            host == host_idx(mm),
            words64 == bitmap_words(mm),
            words == words64,
            total == total_frames(mm),
            pmm.bitmap@.len() == bitmap_words(mm),
            pmm.bitmap_vaddr == mm[host_idx(mm)].base + direct_map_offset,
            forall|i: int|
                0 <= i < pmm.bitmap@.len() * 64 ==> frame_used(pmm.bitmap@, i) == !freed_upto(
                    mm,
                    k2 as int,
                    i,
                ),
        decreases n_regions - k2,
    {
        let e: MemoryRegion = memory_map[k2];
        proof {
            assert(e == mm[k2 as int]);
            lemma_boot_map_bounds(mm);
        }
        let ghost pre = pmm.bitmap@;
        let mut freed_nothing: bool = true;
        match e.kind {
            RegionKind::Usable => {
                proof {
                    lemma_usable_region_below_top(mm, mm.len() as int, k2 as int);
                    vstd::arithmetic::div_mod::lemma_div_is_ordered(
                        (e.base + e.length) as int,
                        usable_top(mm),
                        4096,
                    );
                }
                let end_f: u64 = (e.base + e.length) / 4096;
                let lo: u64 = if k2 == host {
                    (e.base + words64 * 8 + 4095) / 4096
                } else {
                    e.base / 4096
                };
                proof {
                    assert(lo == region_first_free(mm, k2 as int));
                    assert(end_f == region_end_frame(mm, k2 as int));
                }
                if lo < end_f {
                    freed_nothing = false;
                    let lo_us: usize = lo as usize;
                    let cnt: usize = (end_f - lo) as usize;
                    pmm.clear_bits(lo_us, cnt);
                    proof {
                        assert(marks_range_free(pre, pmm.bitmap@, lo_us as int, cnt as int));
                        assert forall|i: int|
                            0 <= i < pmm.bitmap@.len() * 64 implies frame_used(pmm.bitmap@, i)
                            == !freed_upto(mm, k2 + 1, i) by {
                            lemma_freed_upto_step(mm, k2 as int, i);
                            assert(frame_used(pre, i) == !freed_upto(mm, k2 as int, i));
                            assert(frame_used(pmm.bitmap@, i) == (frame_used(pre, i) && !in_range(
                                lo_us as int,
                                cnt as int,
                                i,
                            )));
                            assert(in_range(lo_us as int, cnt as int, i) == region_frees(
                                mm,
                                k2 as int,
                                i,
                            ));
                        }
                    }
                }
            },
            _ => {},
        }
        proof {
            if freed_nothing {
                assert(pmm.bitmap@ == pre);
                assert forall|i: int|
                    0 <= i < pmm.bitmap@.len() * 64 implies frame_used(pmm.bitmap@, i)
                    == !freed_upto(mm, k2 + 1, i) by {
                    lemma_freed_upto_step(mm, k2 as int, i);
                    assert(frame_used(pre, i) == !freed_upto(mm, k2 as int, i));
                    assert(!region_frees(mm, k2 as int, i));
                }
            }
        }
        k2 = k2 + 1;
    }

    proof {
        lemma_boot_map_bounds(mm);
    }
    let ghost before_null = pmm.bitmap@;
    pmm.set_bits(0, 1);
    proof {
        assert(marks_range_used(before_null, pmm.bitmap@, 0, 1));
        assert forall|i: int|
            0 <= i < pmm.bitmap@.len() * 64 implies frame_used(pmm.bitmap@, i)
            == !init_frame_free(mm, i) by {
            assert(frame_used(before_null, i) == !freed_upto(mm, mm.len() as int, i));
            assert(frame_used(pmm.bitmap@, i) == (frame_used(before_null, i) || in_range(
                0,
                1,
                i,
            )));
        }
        assert(frame_used(pmm.bitmap@, 0));
    }
    pmm
}


/// Exclusivity of live allocations. Every live allocation's frames are
/// marked used (`alloc_frame` marks them and only `dealloc_frame` clears
/// them), while a run that `alloc_frame` is about to hand out is free in
/// the same bitmap; two such runs can never overlap. Together with
/// `lemma_used_stays_used_across_alloc` this carries exclusivity through
/// any sequence of allocations.
pub proof fn lemma_live_allocations_disjoint(bm: Seq<u64>, s1: int, n1: int, s2: int, n2: int)
    requires
        n1 > 0,
        n2 > 0,
        forall|i: int| s1 <= i < s1 + n1 ==> frame_used(bm, i),
        run_free(bm, s2, n2),
    ensures
        s1 + n1 <= s2 || s2 + n2 <= s1,
{
    if !(s1 + n1 <= s2 || s2 + n2 <= s1) {
        let i = if s1 >= s2 {
            s1
        } else {
            s2
        };
        assert(s1 <= i < s1 + n1);
        assert(s2 <= i < s2 + n2);
        assert(frame_used(bm, i));
    }
}

/// A frame marked used keeps its mark across a later allocation: marking
/// a range used only sets bits.
pub proof fn lemma_used_stays_used_across_alloc(
    bm_old: Seq<u64>,
    bm_new: Seq<u64>,
    start: int,
    count: int,
    i: int,
)
    requires
        marks_range_used(bm_old, bm_new, start, count),
        0 <= i < bm_new.len() * 64,
        frame_used(bm_old, i),
    ensures
        frame_used(bm_new, i),
{
}

/// Allocating a run of free frames and immediately deallocating the
/// returned handle restores the bitmap to its exact prior bit pattern,
/// word for word.
pub proof fn lemma_alloc_dealloc_roundtrip(
    bm0: Seq<u64>,
    bm1: Seq<u64>,
    bm2: Seq<u64>,
    start: int,
    count: int,
)
    requires
        0 <= start,
        start + count <= bm0.len() * 64,
        run_free(bm0, start, count),
        marks_range_used(bm0, bm1, start, count),
        marks_range_free(bm1, bm2, start, count),
    ensures
        bm2 == bm0,
{
    assert forall|i: int| 0 <= i < bm0.len() * 64 implies frame_used(bm2, i) == frame_used(
        bm0,
        i,
    ) by {
        assert(frame_used(bm1, i) == (frame_used(bm0, i) || in_range(start, count, i)));
        assert(frame_used(bm2, i) == (frame_used(bm1, i) && !in_range(start, count, i)));
        if in_range(start, count, i) {
            assert(!frame_used(bm0, i));
        }
    }
    assert forall|wi: int| 0 <= wi < bm0.len() implies bm2[wi] == bm0[wi] by {
        assert forall|kk: u64| kk < 64 implies bit_set(bm2[wi], kk) == bit_set(bm0[wi], kk) by {
            let i = wi * 64 + kk;
            crate::bitops::lemma_word_bit_index(wi, kk as int);
            vstd::arithmetic::mul::lemma_mul_inequality(wi + 1, bm0.len() as int, 64);
            assert(0 <= i < bm0.len() * 64);
            assert(frame_used(bm2, i) == frame_used(bm0, i));
            assert(frame_used(bm2, i) == bit_set(bm2[wi], kk));
            assert(frame_used(bm0, i) == bit_set(bm0[wi], kk));
        }
        crate::bitops::lemma_word_eq_from_bits(bm0[wi], bm2[wi]);
    }
    assert(bm2 =~= bm0);
}


/// Somewhere in the bitmap `n` consecutive frames are free.
pub open spec fn has_free_run(bm: Seq<u64>, n: int) -> bool {
    exists|a: int| 0 <= a && a + n <= bm.len() * 64 && run_free(bm, a, n)
}

/// A first-fit allocation of `n` frames eats at most `n` frames of any
/// free run that could have held it: a run of `rlen >= n` free frames
/// leaves a run of `rlen - n` free frames behind.
pub proof fn lemma_fit_survives_alloc(
    bm0: Seq<u64>,
    bm1: Seq<u64>,
    a: int,
    rlen: int,
    sfit: int,
    n: int,
)
    requires
        0 <= a,
        a + rlen <= bm0.len() * 64,
        run_free(bm0, a, rlen),
        1 <= n <= rlen,
        first_fit_at(bm0, sfit, n),
        marks_range_used(bm0, bm1, sfit, n),
    ensures
        has_free_run(bm1, rlen - n),
{
    if a < sfit {
        assert(window_blocked(bm0, a, n));
        let w = choose|i: int| a <= i < a + n && frame_used(bm0, i);
        assert(!frame_used(bm0, w));
        assert(false);
    }
    let a2 = if a >= sfit + n {
        a
    } else {
        sfit + n
    };
    assert forall|i: int| a2 <= i < a2 + (rlen - n) implies !frame_used(bm1, i) by {
        assert(a <= i < a + rlen);
        assert(!frame_used(bm0, i));
        assert(frame_used(bm1, i) == (frame_used(bm0, i) || in_range(sfit, n, i)));
    }
    assert(run_free(bm1, a2, rlen - n));
    assert(0 <= a2 && a2 + (rlen - n) <= bm1.len() * 64);
}

/// A bitmap holding a free run of `rlen >= n` frames has a fit for `n`
/// frames.
pub proof fn lemma_run_gives_fit(bm: Seq<u64>, a: int, rlen: int, n: int)
    requires
        0 <= a,
        a + rlen <= bm.len() * 64,
        run_free(bm, a, rlen),
        1 <= n <= rlen,
    ensures
        !no_fit(bm, n),
{
    if no_fit(bm, n) {
        assert(window_blocked(bm, a, n));
        let w = choose|i: int| a <= i < a + n && frame_used(bm, i);
        assert(!frame_used(bm, w));
    }
}


/// With a free run of `rlen` frames somewhere, any request for `n <= rlen`
/// frames has a fit.
pub proof fn lemma_has_free_run_gives_fit(bm: Seq<u64>, rlen: int, n: int)
    requires
        has_free_run(bm, rlen),
        1 <= n <= rlen,
    ensures
        !no_fit(bm, n),
{
    let a = choose|a: int| 0 <= a && a + rlen <= bm.len() * 64 && run_free(bm, a, rlen);
    lemma_run_gives_fit(bm, a, rlen, n);
}

/// A free run of `rlen` frames survives a first-fit allocation of
/// `n <= rlen` frames as a free run of `rlen - n`.
pub proof fn lemma_has_free_run_step(bm0: Seq<u64>, bm1: Seq<u64>, rlen: int, sfit: int, n: int)
    requires
        has_free_run(bm0, rlen),
        1 <= n <= rlen,
        first_fit_at(bm0, sfit, n),
        marks_range_used(bm0, bm1, sfit, n),
    ensures
        has_free_run(bm1, rlen - n),
{
    let a = choose|a: int| 0 <= a && a + rlen <= bm0.len() * 64 && run_free(bm0, a, rlen);
    lemma_fit_survives_alloc(bm0, bm1, a, rlen, sfit, n);
}

} // verus!
