//! Bitmap-based physical frame allocator.
//!
//! The allocator manages physical memory in fixed-size frames (4 KiB) and
//! tracks the used/free state of each frame in a bitmap. Only `Usable`
//! regions of the boot memory map are managed; the legacy area below 1 MiB
//! and everything that is not `Usable` is never handed out.
use vstd::prelude::*;

use crate::memory::bits::{
    lemma_clear_bit, lemma_complement_bit, lemma_low_bit_in_word, lemma_set_bit, lemma_test_bit,
    lemma_zero_word, word_bit,
};

verus! {

/// Physical frame size in bytes.
pub const FRAME_SIZE: usize = 4096;

/// End of the legacy low-memory area. Everything below 1 MiB (IVT, BDA,
/// EBDA, VGA, BIOS ROM) belongs to the system and is never managed.
pub const LOW_MEM_END: u64 = 0x100000;

/// A physical frame identified by its physical start address.
#[derive(Debug, Clone, Copy, PartialEq, Eq, Structural)]
pub struct Frame {
    pub addr: usize,
}

/// Errors returned by the frame allocator.
#[derive(Debug, Clone, Copy, PartialEq, Eq, Structural)]
pub enum FrameError {
    /// Not enough free frames left.
    OutOfMemory,
    /// The frame lies outside the managed range.
    OutOfRange,
    /// The frame is already free (e.g. double free).
    DoubleFree,
}

/// The kind of a region of the boot memory map.
#[derive(Debug, Clone, Copy, PartialEq, Eq, Structural)]
pub enum MemoryRegionKind {
    /// Unused conventional memory, can be used by the kernel.
    Usable,
    /// Memory mappings created by the bootloader (page tables, boot info,
    /// kernel image); must not be used by the kernel.
    Bootloader,
    /// An unknown region reported by the UEFI firmware, with its type tag.
    UnknownUefi(u32),
    /// An unknown region reported by the BIOS firmware, with its E820 type.
    UnknownBios(u32),
}

/// A region of the boot memory map: physical `[start, end)` and its kind.
#[derive(Debug, Clone, Copy, PartialEq, Eq, Structural)]
pub struct MemoryRegion {
    pub start: u64,
    pub end: u64,
    pub kind: MemoryRegionKind,
}

/// Number of bits in a bitmap word.
pub open spec fn word_bits() -> int {
    usize::BITS as int
}

/// Index of the frame at `addr` in a frame space that starts at `start` and
/// spans `len` frames, if `addr` is a frame address inside it.
pub open spec fn frame_index(start: int, len: int, addr: int) -> Option<int> {
    if addr < start || addr % (FRAME_SIZE as int) != 0 {
        None
    } else if (addr - start) / (FRAME_SIZE as int) < len {
        Some((addr - start) / (FRAME_SIZE as int))
    } else {
        None
    }
}

/// Physical address of frame `idx` in a frame space that starts at `start`.
pub open spec fn frame_addr(start: int, idx: int) -> int {
    start + idx * (FRAME_SIZE as int)
}

/// An index below `n * word_bits()` splits into a word below `n` and a bit
/// below `word_bits()`, and the split determines the index.
proof fn lemma_index_split(idx: int, n: int)
    requires
        0 <= idx < n * word_bits(),
    ensures
        0 <= idx / word_bits() < n,
        0 <= idx % word_bits() < word_bits(),
        idx == (idx / word_bits()) * word_bits() + idx % word_bits(),
{
    let w = word_bits();
    assert(w == 32 || w == 64);
    vstd::arithmetic::div_mod::lemma_fundamental_div_mod(idx, w);
    vstd::arithmetic::div_mod::lemma_mod_pos_bound(idx, w);
    assert(w * (idx / w) == (idx / w) * w) by (nonlinear_arith);
    vstd::arithmetic::div_mod::lemma_div_pos_is_pos(idx, w);
    if idx / w >= n {
        assert((idx / w) * w >= n * w) by (nonlinear_arith)
            requires
                idx / w >= n,
                w > 0,
        ;
    }
}

/// Two indices with the same word and bit are equal.
proof fn lemma_same_split(i: int, j: int)
    requires
        0 <= i,
        0 <= j,
        i / word_bits() == j / word_bits(),
        i % word_bits() == j % word_bits(),
    ensures
        i == j,
{
    let w = word_bits();
    assert(w == 32 || w == 64);
    vstd::arithmetic::div_mod::lemma_fundamental_div_mod(i, w);
    vstd::arithmetic::div_mod::lemma_fundamental_div_mod(j, w);
}

/// The index of bit `b` of word `k` splits back into `k` and `b`.
proof fn lemma_join_split(k: int, b: int)
    requires
        0 <= k,
        0 <= b < word_bits(),
    ensures
        (k * word_bits() + b) / word_bits() == k,
        (k * word_bits() + b) % word_bits() == b,
{
    let w = word_bits();
    assert(w == 32 || w == 64);
    vstd::arithmetic::div_mod::lemma_fundamental_div_mod_converse(k * w + b, w, k, b);
}

/// Bitmap over the managed frames. Bit 0 corresponds to the frame at
/// `frame_start`, bit 1 to `frame_start + FRAME_SIZE`, and so on.
/// A set bit (1) means the frame is in use.
pub struct Bitmap {
    bits: Vec<usize>,
    frame_start: usize,
}

impl Bitmap {
    /// The bits, one per frame, in frame order.
    pub closed spec fn view(&self) -> Seq<bool> {
        Seq::new(
            (self.bits@.len() * word_bits()) as nat,
            |i: int| word_bit(self.bits@[i / word_bits()], i % word_bits()),
        )
    }

    /// Physical address of the frame that bit 0 refers to.
    pub closed spec fn start(&self) -> int {
        self.frame_start as int
    }

    /// The bit count fits in a machine word.
    pub closed spec fn wf(&self) -> bool {
        self.bits@.len() * word_bits() <= usize::MAX
    }

    /// Creates a bitmap over `bits`. `frame_start` is the physical address of
    /// the frame that bit 0 refers to.
    fn new(bits: Vec<usize>, frame_start: usize) -> (r: Self)
        ensures
            r.bits@ == bits@,
            r.start() == frame_start,
    {
        Self { bits, frame_start }
    }

    /// Number of bits (frames) this bitmap can track.
    fn bit_len(&self) -> (r: usize)
        requires
            self.wf(),
        ensures
            r == self@.len(),
    {
        self.bits.len() * usize::BITS as usize
    }

    /// Returns the index of the bit for a frame's physical address.
    fn bit_index(&self, addr: usize) -> (r: Option<usize>)
        requires
            self.wf(),
        ensures
            match r {
                Some(i) => frame_index(self.start(), self@.len() as int, addr as int) == Some(
                    i as int,
                ),
                None => frame_index(self.start(), self@.len() as int, addr as int) is None,
            },
    {
        if addr < self.frame_start || addr % FRAME_SIZE != 0 {
            return None;
        }
        let idx = (addr - self.frame_start) / FRAME_SIZE;
        if idx < self.bit_len() {
            Some(idx)
        } else {
            None
        }
    }

    /// Returns the physical address of the frame for a bit index.
    fn bit_addr(&self, idx: usize) -> (r: usize)
        requires
            frame_addr(self.start(), idx as int) <= usize::MAX,
        ensures
            r == frame_addr(self.start(), idx as int),
    {
        self.frame_start + idx * FRAME_SIZE
    }

    fn get_bit(&self, idx: usize) -> (r: bool)
        requires
            self.wf(),
            idx < self@.len(),
        ensures
            r == self@[idx as int],
    {
        proof {
            lemma_index_split(idx as int, self.bits@.len() as int);
        }
        let w = self.bits[idx / usize::BITS as usize];
        let b = idx % usize::BITS as usize;
        proof {
            lemma_test_bit(w, b);
        }
        w & (1 << b) != 0
    }

    fn set_bit(&mut self, idx: usize)
        requires
            old(self).wf(),
            idx < old(self)@.len(),
        ensures
            final(self).wf(),
            final(self)@ == old(self)@.update(idx as int, true),
            final(self).start() == old(self).start(),
    {
        proof {
            lemma_index_split(idx as int, self.bits@.len() as int);
        }
        let k = idx / usize::BITS as usize;
        let b = idx % usize::BITS as usize;
        let w = self.bits[k];
        self.bits[k] = w | (1 << b);
        proof {
            let ghost n = self.bits@.len() as int;
            assert forall|j: int| 0 <= j < self@.len() implies self@[j] == old(self)@.update(
                idx as int,
                true,
            )[j] by {
                lemma_index_split(j, n);
                let c = (j % word_bits()) as usize;
                lemma_set_bit(w, b, c);
                if j / word_bits() == k as int && j % word_bits() == b as int {
                    lemma_same_split(j, idx as int);
                }
            }
            assert(self@ =~= old(self)@.update(idx as int, true));
        }
    }

    fn clear_bit(&mut self, idx: usize)
        requires
            old(self).wf(),
            idx < old(self)@.len(),
        ensures
            final(self).wf(),
            final(self)@ == old(self)@.update(idx as int, false),
            final(self).start() == old(self).start(),
    {
        proof {
            lemma_index_split(idx as int, self.bits@.len() as int);
        }
        let k = idx / usize::BITS as usize;
        let b = idx % usize::BITS as usize;
        let w = self.bits[k];
        self.bits[k] = w & !(1 << b);
        proof {
            let ghost n = self.bits@.len() as int;
            assert forall|j: int| 0 <= j < self@.len() implies self@[j] == old(self)@.update(
                idx as int,
                false,
            )[j] by {
                lemma_index_split(j, n);
                let c = (j % word_bits()) as usize;
                lemma_clear_bit(w, b, c);
                if j / word_bits() == k as int && j % word_bits() == b as int {
                    lemma_same_split(j, idx as int);
                }
            }
            assert(self@ =~= old(self)@.update(idx as int, false));
        }
    }

    /// Index of the first clear (free) bit, or `None` if the bitmap is
    /// fully set.
    fn first_free_bit(&self) -> (r: Option<usize>)
        requires
            self.wf(),
        ensures
            match r {
                Some(i) => i < self@.len() && !self@[i as int] && forall|j: int|
                    0 <= j < i ==> #[trigger] self@[j],
                None => forall|j: int| 0 <= j < self@.len() ==> #[trigger] self@[j],
            },
    {
        let n = self.bits.len();
        let mut word: usize = 0;
        while word < n
            invariant
                self.wf(),
                n == self.bits@.len(),
                word <= n,
                forall|j: int| 0 <= j < word * word_bits() ==> #[trigger] self@[j],
            decreases n - word,
        {
            let w = self.bits[word];
            let inv = !w;
            if inv != 0 {
                let tz = (inv as u64).trailing_zeros();
                proof {
                    lemma_complement_bit(w, 0);
                    vstd::std_specs::bits::axiom_u64_trailing_zeros(inv as u64);
                    lemma_low_bit_in_word(inv, tz as u64);
                    assert(word * word_bits() + word_bits() <= n * word_bits()) by (
                    nonlinear_arith)
                        requires
                            word < n,
                            word_bits() > 0,
                    ;
                    lemma_join_split(word as int, tz as int);
                    lemma_complement_bit(w, tz as usize);
                    assert forall|j: int| 0 <= j < word * word_bits() + tz implies #[trigger] self@[j] by {
                        if j >= word * word_bits() {
                            let c = j - word * word_bits();
                            lemma_join_split(word as int, c);
                            lemma_complement_bit(w, c as usize);
                            assert(((inv as u64) >> (c as u64)) & 1u64 == 0u64);
                        }
                    }
                }
                return Some(word * usize::BITS as usize + tz as usize);
            }
            proof {
                assert forall|j: int| 0 <= j < (word + 1) * word_bits() implies #[trigger] self@[j] by {
                    if j >= word * word_bits() {
                        let c = j - word * word_bits();
                        assert(c < word_bits()) by (nonlinear_arith)
                            requires
                                j < (word + 1) * word_bits(),
                                c == j - word * word_bits(),
                        ;
                        assert(j < n * word_bits()) by (nonlinear_arith)
                            requires
                                j < (word + 1) * word_bits(),
                                word < n,
                                word_bits() > 0,
                        ;
                        lemma_join_split(word as int, c);
                        lemma_complement_bit(w, c as usize);
                    }
                }
            }
            word += 1;
        }
        None
    }
}

/// Abstract state of a frame allocator: the physical address of frame 0 and,
/// for each managed frame, whether it is in use.
pub struct FrameModel {
    pub start: int,
    pub used: Seq<bool>,
}

/// The frame space is aligned and every frame address fits in a `usize`.
pub open spec fn model_wf(m: FrameModel) -> bool {
    &&& m.start >= 0
    &&& m.start % (FRAME_SIZE as int) == 0
    &&& m.start + m.used.len() * (FRAME_SIZE as int) <= usize::MAX
}

/// Number of free (unused) frames.
pub open spec fn count_free(used: Seq<bool>) -> nat
    decreases used.len(),
{
    if used.len() == 0 {
        0
    } else {
        count_free(used.drop_last()) + if used.last() {
            0nat
        } else {
            1nat
        }
    }
}

/// Index of the lowest free frame, if any.
pub open spec fn first_free(used: Seq<bool>) -> Option<int>
    decreases used.len(),
{
    if used.len() == 0 {
        None
    } else {
        match first_free(used.drop_last()) {
            Some(i) => Some(i),
            None => if used.last() {
                None
            } else {
                Some(used.len() - 1)
            },
        }
    }
}

/// Allocation: the lowest free frame becomes used and is handed out; with no
/// free frame the state is unchanged and the answer is `OutOfMemory`.
pub open spec fn alloc_step(m: FrameModel) -> (Result<Frame, FrameError>, FrameModel) {
    match first_free(m.used) {
        None => (Err(FrameError::OutOfMemory), m),
        Some(i) => (
            Ok(Frame { addr: frame_addr(m.start, i) as usize }),
            FrameModel { start: m.start, used: m.used.update(i, true) },
        ),
    }
}

/// Deallocation: a used frame inside the managed range becomes free; an
/// address outside the range (or not frame-aligned) is `OutOfRange`, a free
/// frame is `DoubleFree`, and on error the state is unchanged.
pub open spec fn dealloc_step(m: FrameModel, frame: Frame) -> (Result<(), FrameError>, FrameModel) {
    match frame_index(m.start, m.used.len() as int, frame.addr as int) {
        None => (Err(FrameError::OutOfRange), m),
        Some(i) => if !m.used[i] {
            (Err(FrameError::DoubleFree), m)
        } else {
            (Ok(()), FrameModel { start: m.start, used: m.used.update(i, false) })
        },
    }
}

/// Whether the frame at `addr` shares a byte with `[start, end)`.
pub open spec fn frame_overlaps(addr: int, start: int, end: int) -> bool {
    start < end && addr < end && start < addr + FRAME_SIZE
}

/// Marking `[start, end)` used: every managed frame that shares a byte with
/// the range becomes used; nothing else changes.
pub open spec fn mark_range_step(m: FrameModel, start: usize, end: usize) -> FrameModel {
    FrameModel {
        start: m.start,
        used: Seq::new(
            m.used.len(),
            |i: int| m.used[i] || frame_overlaps(frame_addr(m.start, i), start as int, end as int),
        ),
    }
}

/// `first_free` is the lowest index of a free frame.
pub proof fn lemma_first_free(used: Seq<bool>)
    ensures
        match first_free(used) {
            Some(i) => 0 <= i < used.len() && !used[i] && forall|j: int|
                0 <= j < i ==> #[trigger] used[j],
            None => forall|j: int| 0 <= j < used.len() ==> #[trigger] used[j],
        },
    decreases used.len(),
{
    if used.len() > 0 {
        lemma_first_free(used.drop_last());
        assert forall|j: int| 0 <= j < used.len() - 1 implies used.drop_last()[j] == used[j] by {}
    }
}

/// The free count changes by one exactly when a frame's state flips.
pub proof fn lemma_count_update(used: Seq<bool>, i: int, v: bool)
    requires
        0 <= i < used.len(),
    ensures
        count_free(used.update(i, v)) + (if used[i] {
            0int
        } else {
            1int
        }) == count_free(used) + (if v {
            0int
        } else {
            1int
        }),
    decreases used.len(),
{
    let u = used.update(i, v);
    if i == used.len() - 1 {
        assert(u.drop_last() =~= used.drop_last());
    } else {
        lemma_count_update(used.drop_last(), i, v);
        assert(u.drop_last() =~= used.drop_last().update(i, v));
    }
}

/// At most every frame is free, and all are free exactly when none is used.
pub proof fn lemma_count_bounds(used: Seq<bool>)
    ensures
        count_free(used) <= used.len(),
        count_free(used) == 0 <==> forall|j: int| 0 <= j < used.len() ==> #[trigger] used[j],
    decreases used.len(),
{
    if used.len() > 0 {
        lemma_count_bounds(used.drop_last());
        if count_free(used) == 0 {
            assert forall|j: int| 0 <= j < used.len() implies #[trigger] used[j] by {
                if j < used.len() - 1 {
                    assert(used.drop_last()[j] == used[j]);
                }
            }
        }
        if forall|j: int| 0 <= j < used.len() ==> #[trigger] used[j] {
            assert forall|j: int| 0 <= j < used.drop_last().len() implies #[trigger] used.drop_last()[j] by {
                assert(used[j]);
            }
        }
    }
}

/// With no frame in use, every frame is free.
pub proof fn lemma_count_all_free(n: nat)
    ensures
        count_free(Seq::new(n, |i: int| false)) == n,
    decreases n,
{
    if n > 0 {
        lemma_count_all_free((n - 1) as nat);
        assert(Seq::new(n, |i: int| false).drop_last() =~= Seq::new((n - 1) as nat, |i: int| false));
    }
}

/// The usable regions of `rs` fit in machine words with room for rounding.
pub open spec fn usable_bounds(rs: Seq<MemoryRegion>) -> bool {
    forall|k: int|
        0 <= k < rs.len() && #[trigger] rs[k].kind == MemoryRegionKind::Usable ==> rs[k].start
            + FRAME_SIZE - 1 <= usize::MAX && rs[k].end <= usize::MAX
}

/// The regions `v` have the bounds `u`, in order.
pub open spec fn spans_of(v: Seq<MemoryRegion>, u: Seq<(int, int)>) -> bool {
    &&& v.len() == u.len()
    &&& forall|k: int| 0 <= k < v.len() ==> (v[k].start as int, v[k].end as int) == #[trigger] u[k]
}

/// Collects the usable regions, clipped to whole frames above the legacy
/// low-memory area, dropping those that become empty.
fn collect_usable(regions: &[MemoryRegion]) -> (usable: Vec<MemoryRegion>)
    requires
        usable_bounds(regions@),
    ensures
        spans_of(usable@, usable_regions(regions@)),
{
    let ghost rs = regions@;
    proof {
        assert(4096usize == 1usize << 12usize) by (bit_vector);
    }
    let mut usable: Vec<MemoryRegion> = Vec::new();
    let mut i: usize = 0;
    while i < regions.len()
        invariant
            rs == regions@,
            usable_bounds(rs),
            4096usize == 1usize << 12usize,
            i <= rs.len(),
            spans_of(usable@, usable_regions(rs.take(i as int))),
        decreases rs.len() - i,
    {
        let r = regions[i];
        proof {
            assert(rs.take(i + 1).drop_last() =~= rs.take(i as int));
            assert(rs.take(i + 1).last() == rs[i as int]);
        }
        if r.kind == MemoryRegionKind::Usable {
            assert(rs[i as int].kind == MemoryRegionKind::Usable);
            let up = crate::memory::align_up(r.start as usize, FRAME_SIZE);
            let start = if up < LOW_MEM_END as usize {
                LOW_MEM_END as usize
            } else {
                up
            };
            proof {
                crate::memory::lemma_round_down_pow2(r.end as usize, FRAME_SIZE, 12);
            }
            let end = r.end as usize & !(FRAME_SIZE - 1);
            if end > start {
                usable.push(MemoryRegion { start: start as u64, end: end as u64, kind: r.kind });
            }
        }
        i += 1;
    }
    proof {
        assert(rs.take(rs.len() as int) =~= rs);
    }
    usable
}

/// Index of the largest region (the last one among equals).
fn largest_index(usable: &Vec<MemoryRegion>, Ghost(u): Ghost<Seq<(int, int)>>) -> (r: usize)
    requires
        spans_of(usable@, u),
        u.len() > 0,
        forall|j: int| 0 <= j < u.len() ==> #[trigger] u[j].0 < u[j].1,
    ensures
        r == largest_region(u),
        r < u.len(),
{
    let mut li: usize = 0;
    let mut k: usize = 1;
    while k < usable.len()
        invariant
            spans_of(usable@, u),
            forall|j: int| 0 <= j < u.len() ==> #[trigger] u[j].0 < u[j].1,
            1 <= k <= u.len(),
            0 <= li < k,
            li == largest_region(u.take(k as int)),
        decreases u.len() - k,
    {
        proof {
            assert(u.take(k + 1).drop_last() =~= u.take(k as int));
            assert(u.take(k + 1).last() == u[k as int]);
            assert(u.take(k + 1)[li as int] == u[li as int]);
            assert(u.take(k as int)[li as int] == u[li as int]);
            assert(u[k as int] == (usable@[k as int].start as int, usable@[k as int].end as int));
            assert(u[li as int] == (usable@[li as int].start as int, usable@[li as int].end as int));
            assert(u[k as int].0 < u[k as int].1);
            assert(u[li as int].0 < u[li as int].1);
        }
        if usable[k].end - usable[k].start >= usable[li].end - usable[li].start {
            li = k;
        }
        k += 1;
    }
    proof {
        assert(u.take(u.len() as int) =~= u);
    }
    li
}

/// Bitmap-based physical frame allocator.
pub struct FrameAllocator {
    /// Bitmap over the managed frames.
    bitmap: Bitmap,
    /// Physical address of the first managed frame (index 0).
    frame_start: usize,
    /// Physical address of the frame that holds the bitmap. The first usable
    /// region may hold the kernel image, so the bitmap is placed in the
    /// largest usable region instead.
    bitmap_base: usize,
    /// Total number of managed frames.
    total_frames: usize,
    /// Number of currently free frames.
    free_frames: usize,
}

impl FrameAllocator {
    /// The allocator's abstract state.
    pub closed spec fn view(&self) -> FrameModel {
        FrameModel { start: self.frame_start as int, used: self.bitmap@.take(self.total_frames as int) }
    }

    /// Physical address of the frame that holds the bitmap.
    pub closed spec fn bitmap_frame(&self) -> int {
        self.bitmap_base as int
    }

    /// The allocator's internal invariant.
    pub closed spec fn wf(&self) -> bool {
        &&& self.bitmap.wf()
        &&& self.bitmap.start() == self.frame_start
        &&& self.total_frames <= self.bitmap@.len()
        &&& model_wf(self@)
        &&& self.free_frames == count_free(self@.used)
    }

    /// Creates an allocator over the usable regions of the memory map.
    ///
    /// The usable regions are clipped to whole frames above `LOW_MEM_END`
    /// and merged into one linear frame space that runs from the start of
    /// the first to the end of the last; frames in the gaps between regions
    /// start out free and are protected by `mark_range_used`. The bitmap
    /// frame (the start of the largest usable region) is marked used.
    /// Returns `None` when there is nothing to manage.
    pub fn init(regions: &[MemoryRegion]) -> (r: Option<Self>)
        requires
            init_defined(regions@),
        ensures
            match r {
                None => init_model(regions@) is None,
                Some(a) => {
                    &&& a.wf()
                    &&& init_model(regions@) == Some(a@)
                    &&& a.bitmap_frame() == usable_regions(regions@)[largest_region(
                        usable_regions(regions@),
                    )].0
                },
            },
    {
        let ghost rs = regions@;
        let ghost u = usable_regions(rs);
        proof {
            lemma_usable_regions(rs);
        }
        let usable = collect_usable(regions);
        if usable.len() == 0 {
            return None;
        }
        let first = usable[0];
        let last = usable[usable.len() - 1];
        assert((first.start as int, first.end as int) == u[0]);
        assert((last.start as int, last.end as int) == u[u.len() - 1]);
        let frame_start = first.start as usize;
        let total_frames = (last.end - first.start) as usize / FRAME_SIZE;
        if total_frames == 0 {
            return None;
        }
        // The bitmap takes ceil(total_frames / bits-per-word) words.
        let words_needed = (total_frames + usize::BITS as usize - 1) / usize::BITS as usize;
        proof {
            assert forall|j: int| 0 <= j < u.len() implies #[trigger] u[j].0 < u[j].1 by {}
        }
        let li = largest_index(&usable, Ghost(u));
        assert(u[li as int] == (usable@[li as int].start as int, usable@[li as int].end as int));
        let bitmap_base = usable[li].start as usize;
        let bits = vec![0usize; words_needed];
        let ghost total = total_frames as int;
        let ghost idx = (bitmap_base - frame_start) / (FRAME_SIZE as int);
        proof {
            let w = word_bits();
            assert(w == 32 || w == 64);
            vstd::arithmetic::div_mod::lemma_fundamental_div_mod(total + w - 1, w);
            vstd::arithmetic::div_mod::lemma_mod_pos_bound(total + w - 1, w);
            assert(words_needed * w >= total) by (nonlinear_arith)
                requires
                    total + w - 1 == w * words_needed + (total + w - 1) % w,
                    (total + w - 1) % w < w,
            ;
            assert(words_needed <= total) by (nonlinear_arith)
                requires
                    total + w - 1 == w * words_needed + (total + w - 1) % w,
                    0 <= (total + w - 1) % w,
                    w >= 32,
                    total >= 1,
            ;
            assert(words_needed * w <= max_managed_frames() * 64) by (nonlinear_arith)
                requires
                    words_needed <= total <= max_managed_frames(),
                    w <= 64,
            ;
            lemma_aligned_diff(last.end as int, first.start as int);
            assert(frame_start + total * (FRAME_SIZE as int) == last.end);
        }
        let bm = Bitmap::new(bits, frame_start);
        proof {
            assert forall|j: int| 0 <= j < bm@.len() implies !#[trigger] bm@[j] by {
                lemma_index_split(j, bm.bits@.len() as int);
                lemma_zero_word((j % word_bits()) as usize);
            }
            assert(bm@.take(total) =~= Seq::new(total as nat, |i: int| false));
            lemma_count_all_free(total as nat);
        }
        let mut allocator = Self {
            bitmap: bm,
            frame_start,
            bitmap_base,
            total_frames,
            free_frames: total_frames,
        };
        proof {
            assert(allocator@.used =~= Seq::new(total as nat, |i: int| false));
            assert((bitmap_base as int) % (FRAME_SIZE as int) == 0);
            assert(bitmap_base < frame_start + total * (FRAME_SIZE as int));
            assert(idx < total) by (nonlinear_arith)
                requires
                    idx == (bitmap_base - frame_start) / (FRAME_SIZE as int),
                    0 <= bitmap_base - frame_start < total * (FRAME_SIZE as int),
            ;
        }
        allocator.mark_used(bitmap_base);
        proof {
            assert(allocator@.used =~= Seq::new(total as nat, |i: int| i == idx));
        }
        // Protect the gaps between consecutive usable regions.
        let ghost fs = frame_start as int;
        let mut g: usize = 1;
        while g < usable.len()
            invariant
                usable@.len() == u.len(),
                forall|j: int|
                    0 <= j < usable@.len() ==> (usable@[j].start as int, usable@[j].end as int)
                        == #[trigger] u[j],
                forall|j: int|
                    0 <= j < u.len() ==> {
                        let c = #[trigger] u[j];
                        &&& c.0 % (FRAME_SIZE as int) == 0
                        &&& c.1 % (FRAME_SIZE as int) == 0
                        &&& LOW_MEM_END <= c.0 < c.1 <= usize::MAX
                    },
                1 <= g <= u.len(),
                fs == u[0].0,
                allocator.wf(),
                allocator@.start == fs,
                allocator@.used.len() == total,
                allocator.bitmap_frame() == bitmap_base,
                allocator@.used =~= Seq::new(
                    total as nat,
                    |i: int|
                        i == idx || exists|k: int|
                            1 <= k < g && #[trigger] u[k - 1].1 <= frame_addr(fs, i) < u[k].0,
                ),
            decreases u.len() - g,
        {
            let prev_end = usable[g - 1].end;
            let next_start = usable[g].start;
            proof {
                assert(u[g - 1] == (usable@[g - 1].start as int, usable@[g - 1].end as int));
                assert(u[g as int] == (usable@[g as int].start as int, usable@[g as int].end as int));
                vstd::arithmetic::div_mod::lemma_fundamental_div_mod(usize::MAX as int, FRAME_SIZE as int);
                vstd::arithmetic::div_mod::lemma_mod_pos_bound(usize::MAX as int, FRAME_SIZE as int);
            }
            let ghost before = allocator@.used;
            if prev_end < next_start {
                allocator.mark_range_used(prev_end as usize, next_start as usize);
            }
            proof {
                assert forall|i: int| 0 <= i < total implies #[trigger] allocator@.used[i] == (i == idx
                    || exists|k: int|
                    1 <= k < g + 1 && #[trigger] u[k - 1].1 <= frame_addr(fs, i) < u[k].0) by {
                    if u[g - 1].1 <= frame_addr(fs, i) < u[g as int].0 {
                        assert(1 <= g < g + 1);
                    }
                    if exists|k: int| 1 <= k < g + 1 && #[trigger] u[k - 1].1 <= frame_addr(fs, i) < u[k].0 {
                        let k = choose|k: int| 1 <= k < g + 1 && #[trigger] u[k - 1].1 <= frame_addr(fs, i) < u[k].0;
                        if k < g {
                            assert(before[i]);
                        }
                    }
                }
            }
            g += 1;
        }
        proof {
            assert(allocator@.used =~= init_model(rs)->0.used);
        }
        Some(allocator)
    }

    /// Whether `init` can build an allocator from `regions` without
    /// overflowing or failing its internal checks.
    pub fn init_supported(regions: &[MemoryRegion]) -> (r: bool)
        ensures
            r == init_defined(regions@),
    {
        let ghost rs = regions@;
        let mut i: usize = 0;
        while i < regions.len()
            invariant
                rs == regions@,
                i <= rs.len(),
                forall|k: int|
                    0 <= k < i && #[trigger] rs[k].kind == MemoryRegionKind::Usable ==> rs[k].start
                        + FRAME_SIZE - 1 <= usize::MAX && rs[k].end <= usize::MAX,
            decreases rs.len() - i,
        {
            let r = regions[i];
            if r.kind == MemoryRegionKind::Usable && !(r.start <= (usize::MAX - (FRAME_SIZE - 1)) as u64
                && r.end <= usize::MAX as u64) {
                assert(rs[i as int].kind == MemoryRegionKind::Usable);
                return false;
            }
            i += 1;
        }
        let ghost u = usable_regions(rs);
        proof {
            lemma_usable_regions(rs);
        }
        let usable = collect_usable(regions);
        if usable.len() == 0 {
            return true;
        }
        let first = usable[0];
        let last = usable[usable.len() - 1];
        assert((first.start as int, first.end as int) == u[0]);
        assert((last.start as int, last.end as int) == u[u.len() - 1]);
        if last.end < first.start {
            return false;
        }
        let total = (last.end - first.start) / FRAME_SIZE as u64;
        if total == 0 {
            return true;
        }
        if total > (FRAME_SIZE * 8) as u64 {
            return false;
        }
        proof {
            assert forall|j: int| 0 <= j < u.len() implies #[trigger] u[j].0 < u[j].1 by {}
        }
        let li = largest_index(&usable, Ghost(u));
        assert(u[li as int] == (usable@[li as int].start as int, usable@[li as int].end as int));
        first.start <= usable[li].start && usable[li].start < last.end
    }

    /// Allocates the lowest free frame and marks it used. Returns
    /// `OutOfMemory` when no frame is free.
    pub fn alloc_frame(&mut self) -> (r: Result<Frame, FrameError>)
        requires
            old(self).wf(),
        ensures
            final(self).wf(),
            (r, final(self)@) == alloc_step(old(self)@),
    {
        proof {
            lemma_first_free(self@.used);
        }
        let idx = match self.bitmap.first_free_bit() {
            Some(idx) => idx,
            None => {
                proof {
                    assert(forall|j: int| 0 <= j < self.total_frames ==> #[trigger] self@.used[j] == self.bitmap@[j]);
                    if first_free(self@.used) is Some {
                        let i = first_free(self@.used)->0;
                        assert(self.bitmap@[i]);
                    }
                }
                return Err(FrameError::OutOfMemory);
            },
        };
        if idx >= self.total_frames {
            proof {
                if first_free(self@.used) is Some {
                    let i = first_free(self@.used)->0;
                    assert(self.bitmap@[i]);
                }
            }
            return Err(FrameError::OutOfMemory);
        }
        proof {
            if first_free(self@.used) is Some {
                let i = first_free(self@.used)->0;
                if i < idx {
                    assert(self.bitmap@[i]);
                }
                if idx < i {
                    assert(self@.used[idx as int] == self.bitmap@[idx as int]);
                }
            } else {
                assert(self@.used[idx as int] == self.bitmap@[idx as int]);
            }
            lemma_count_update(self@.used, idx as int, true);
        }
        let ghost old_used = self@.used;
        self.bitmap.set_bit(idx);
        proof {
            assert(self@.used =~= old_used.update(idx as int, true));
        }
        self.free_frames -= 1;
        let frame = Frame { addr: self.bitmap.bit_addr(idx) };
        Ok(frame)
    }

    /// Frees a frame. Returns `OutOfRange` if the frame is outside the
    /// managed range and `DoubleFree` if it is already free.
    pub fn dealloc_frame(&mut self, frame: Frame) -> (r: Result<(), FrameError>)
        requires
            old(self).wf(),
        ensures
            final(self).wf(),
            (r, final(self)@) == dealloc_step(old(self)@, frame),
    {
        let idx = match self.bitmap.bit_index(frame.addr) {
            Some(idx) => idx,
            None => {
                return Err(FrameError::OutOfRange);
            },
        };
        if idx >= self.total_frames {
            return Err(FrameError::OutOfRange);
        }
        if !self.bitmap.get_bit(idx) {
            return Err(FrameError::DoubleFree);
        }
        proof {
            lemma_count_update(self@.used, idx as int, false);
            lemma_count_bounds(self@.used.update(idx as int, false));
        }
        let ghost old_used = self@.used;
        self.bitmap.clear_bit(idx);
        proof {
            assert(self@.used =~= old_used.update(idx as int, false));
        }
        self.free_frames += 1;
        Ok(())
    }

    /// Marks the frame at `addr` as used without handing it out (the bitmap
    /// frame itself).
    fn mark_used(&mut self, addr: usize)
        requires
            old(self).wf(),
            frame_index(old(self)@.start, old(self)@.used.len() as int, addr as int) is Some,
        ensures
            final(self).wf(),
            final(self)@ == (FrameModel {
                start: old(self)@.start,
                used: old(self)@.used.update(
                    frame_index(old(self)@.start, old(self)@.used.len() as int, addr as int)->0,
                    true,
                ),
            }),
            final(self).bitmap_frame() == old(self).bitmap_frame(),
    {
        let idx = match self.bitmap.bit_index(addr) {
            Some(idx) => idx,
            None => {
                proof {
                    assert(false);
                }
                return;
            },
        };
        assert(self@.used[idx as int] == self.bitmap@[idx as int]);
        if !self.bitmap.get_bit(idx) {
            proof {
                lemma_count_update(self@.used, idx as int, true);
            }
            let ghost old_used = self@.used;
            self.bitmap.set_bit(idx);
            proof {
                assert(self@.used =~= old_used.update(idx as int, true));
            }
            self.free_frames -= 1;
        } else {
            assert(self@.used =~= self@.used.update(idx as int, true));
        }
    }

    /// Marks every managed frame that shares a byte with `[start, end)` as
    /// used (protecting kernel and bootloader memory): the walk starts at the
    /// frame that holds `start`.
    pub fn mark_range_used(&mut self, start: usize, end: usize)
        requires
            old(self).wf(),
            end <= usize::MAX - (FRAME_SIZE - 1),
        ensures
            final(self).wf(),
            final(self)@ == mark_range_step(old(self)@, start, end),
            final(self).bitmap_frame() == old(self).bitmap_frame(),
    {
        let ghost m0 = self@;
        if start >= end {
            assert(self@.used =~= mark_range_step(m0, start, end).used);
            return;
        }
        proof {
            assert(4096usize == 1usize << 12usize) by (bit_vector);
            crate::memory::lemma_round_down_pow2(start, FRAME_SIZE, 12);
            vstd::arithmetic::div_mod::lemma_fundamental_div_mod(start as int, FRAME_SIZE as int);
            vstd::arithmetic::div_mod::lemma_mod_pos_bound(start as int, FRAME_SIZE as int);
            vstd::arithmetic::div_mod::lemma_mod_multiples_basic(
                start as int / FRAME_SIZE as int,
                FRAME_SIZE as int,
            );
        }
        let a0 = start & !(FRAME_SIZE - 1);
        let mut addr = a0;
        while addr < end
            invariant
                self.wf(),
                self@.start == m0.start,
                self@.used.len() == m0.used.len(),
                a0 % FRAME_SIZE == 0,
                a0 <= start < a0 + FRAME_SIZE,
                start < end,
                addr % FRAME_SIZE == 0,
                a0 <= addr,
                addr == a0 || addr < end + FRAME_SIZE,
                end <= usize::MAX - (FRAME_SIZE - 1),
                self.bitmap_base == old(self).bitmap_base,
                self@.used =~= Seq::new(
                    m0.used.len(),
                    |i: int| m0.used[i] || (a0 <= frame_addr(m0.start, i) < addr),
                ),
            decreases end + FRAME_SIZE - addr,
        {
            let ghost before = self@.used;
            match self.bitmap.bit_index(addr) {
                Some(idx) => {
                    if idx < self.total_frames && !self.bitmap.get_bit(idx) {
                        proof {
                            lemma_count_update(self@.used, idx as int, true);
                        }
                        self.bitmap.set_bit(idx);
                        proof {
                            assert(self@.used =~= before.update(idx as int, true));
                        }
                        self.free_frames -= 1;
                    }
                },
                None => {},
            }
            proof {
                assert forall|i: int| 0 <= i < m0.used.len() implies #[trigger] self@.used[i] == (
                m0.used[i] || (a0 <= frame_addr(m0.start, i) < addr + FRAME_SIZE)) by {
                    assert(frame_addr(m0.start, i) % (FRAME_SIZE as int) == 0);
                    if frame_addr(m0.start, i) == addr {
                        assert((addr - m0.start) / (FRAME_SIZE as int) == i);
                    }
                }
            }
            addr += FRAME_SIZE;
        }
        proof {
            assert forall|i: int| 0 <= i < m0.used.len() implies #[trigger] self@.used[i]
                == mark_range_step(m0, start, end).used[i] by {
                assert(frame_addr(m0.start, i) % (FRAME_SIZE as int) == 0);
            }
            assert(self@.used =~= mark_range_step(m0, start, end).used);
        }
    }

    /// A well-formed allocator has an aligned frame space whose addresses
    /// fit in machine words.
    pub proof fn lemma_wf_model(&self)
        requires
            self.wf(),
        ensures
            model_wf(self@),
    {
    }

    /// Number of currently free frames.
    pub fn free_frames(&self) -> (r: usize)
        requires
            self.wf(),
        ensures
            r == count_free(self@.used),
    {
        self.free_frames
    }

    /// Total number of managed frames.
    pub fn total_frames(&self) -> (r: usize)
        requires
            self.wf(),
        ensures
            r == self@.used.len(),
    {
        self.total_frames
    }
}

/// A usable region clipped to whole frames above the legacy low-memory area.
pub open spec fn clip(r: MemoryRegion) -> (int, int) {
    let up = crate::memory::spec_align_up(r.start as int, FRAME_SIZE as int);
    (if up < LOW_MEM_END { LOW_MEM_END as int } else { up }, (r.end as int) / (FRAME_SIZE as int)
        * (FRAME_SIZE as int))
}

/// The usable regions of `rs`, in order, clipped by `clip` and without the
/// ones that become empty.
pub open spec fn usable_regions(rs: Seq<MemoryRegion>) -> Seq<(int, int)>
    decreases rs.len(),
{
    if rs.len() == 0 {
        Seq::empty()
    } else {
        let prev = usable_regions(rs.drop_last());
        let c = clip(rs.last());
        if rs.last().kind == MemoryRegionKind::Usable && c.1 > c.0 {
            prev.push(c)
        } else {
            prev
        }
    }
}

/// Index of the largest of the regions `u` (the last one among equals).
pub open spec fn largest_region(u: Seq<(int, int)>) -> int
    decreases u.len(),
{
    if u.len() <= 1 {
        0
    } else {
        let j = largest_region(u.drop_last());
        if u.last().1 - u.last().0 >= u[j].1 - u[j].0 {
            u.len() - 1
        } else {
            j
        }
    }
}

/// Number of frames from the start of the first usable region to the end of
/// the last one.
pub open spec fn span_frames(u: Seq<(int, int)>) -> int {
    (u.last().1 - u[0].0) / (FRAME_SIZE as int)
}

/// Largest number of frames whose bitmap fits in one frame.
pub open spec fn max_managed_frames() -> int {
    (FRAME_SIZE as int) * 8
}

/// The inputs on which building an allocator neither overflows nor fails
/// its internal checks: the usable regions fit in machine words, the last
/// usable region does not end before the first one starts, and when there
/// is something to manage, its bitmap fits in one frame and the largest
/// usable region starts inside the managed span.
pub open spec fn init_defined(rs: Seq<MemoryRegion>) -> bool {
    &&& usable_bounds(rs)
    &&& {
        let u = usable_regions(rs);
        u.len() > 0 ==> {
            &&& u.last().1 >= u[0].0
            &&& span_frames(u) > 0 ==> {
                &&& span_frames(u) <= max_managed_frames()
                &&& u[0].0 <= u[largest_region(u)].0 < u.last().1
            }
        }
    }
}

/// Whether `addr` lies in a gap between two consecutive usable regions.
pub open spec fn in_gap(u: Seq<(int, int)>, addr: int) -> bool {
    exists|k: int| 1 <= k < u.len() && #[trigger] u[k - 1].1 <= addr < u[k].0
}

/// The allocator built from `rs`: frames from the start of the first usable
/// region to the end of the last one, all free except the frame holding the
/// bitmap (the start of the largest usable region) and the frames in the
/// gaps between consecutive usable regions; nothing when there is no usable
/// frame.
pub open spec fn init_model(rs: Seq<MemoryRegion>) -> Option<FrameModel> {
    let u = usable_regions(rs);
    if u.len() == 0 || span_frames(u) == 0 {
        None
    } else {
        let bitmap_idx = (u[largest_region(u)].0 - u[0].0) / (FRAME_SIZE as int);
        Some(
            FrameModel {
                start: u[0].0,
                used: Seq::new(
                    span_frames(u) as nat,
                    |i: int| i == bitmap_idx || in_gap(u, frame_addr(u[0].0, i)),
                ),
            },
        )
    }
}

/// Facts about the usable regions: each is aligned, above the low-memory
/// end, non-empty and inside machine words.
pub proof fn lemma_usable_regions(rs: Seq<MemoryRegion>)
    requires
        usable_bounds(rs),
    ensures
        forall|k: int|
            0 <= k < usable_regions(rs).len() ==> {
                let c = #[trigger] usable_regions(rs)[k];
                &&& c.0 % (FRAME_SIZE as int) == 0
                &&& c.1 % (FRAME_SIZE as int) == 0
                &&& LOW_MEM_END <= c.0 < c.1 <= usize::MAX
            },
    decreases rs.len(),
{
    if rs.len() > 0 {
        let p = rs.drop_last();
        assert forall|k: int|
            0 <= k < p.len() && #[trigger] p[k].kind == MemoryRegionKind::Usable implies p[k].start
            + FRAME_SIZE - 1 <= usize::MAX && p[k].end <= usize::MAX by {
            assert(p[k] == rs[k]);
        }
        lemma_usable_regions(p);
        let r = rs.last();
        if r.kind == MemoryRegionKind::Usable {
            assert(r == rs[rs.len() - 1]);
            crate::memory::lemma_round_up_bounds(r.start as int, FRAME_SIZE as int);
            vstd::arithmetic::div_mod::lemma_fundamental_div_mod(r.end as int, FRAME_SIZE as int);
            vstd::arithmetic::div_mod::lemma_mod_multiples_basic(
                (r.end as int) / (FRAME_SIZE as int),
                FRAME_SIZE as int,
            );
            let c = clip(r);
            assert(c.0 % (FRAME_SIZE as int) == 0);
            assert(c.1 % (FRAME_SIZE as int) == 0);
            assert(c.1 <= r.end);
        }
        let u = usable_regions(rs);
        let up = usable_regions(p);
        assert forall|k: int| 0 <= k < u.len() implies {
            let c = #[trigger] u[k];
            &&& c.0 % (FRAME_SIZE as int) == 0
            &&& c.1 % (FRAME_SIZE as int) == 0
            &&& LOW_MEM_END <= c.0 < c.1 <= usize::MAX
        } by {
            if k < up.len() {
                assert(u[k] == up[k]);
            }
        }
    }
}

/// The largest region is one of the regions.
pub proof fn lemma_largest_region(u: Seq<(int, int)>)
    ensures
        u.len() > 0 ==> 0 <= largest_region(u) < u.len(),
    decreases u.len(),
{
    if u.len() > 1 {
        lemma_largest_region(u.drop_last());
    }
}

/// The distance between two frame-aligned addresses is a whole number of
/// frames.
pub proof fn lemma_aligned_diff(a: int, b: int)
    requires
        a % (FRAME_SIZE as int) == 0,
        b % (FRAME_SIZE as int) == 0,
        b <= a,
    ensures
        (a - b) / (FRAME_SIZE as int) * (FRAME_SIZE as int) == a - b,
{
    let f = FRAME_SIZE as int;
    vstd::arithmetic::div_mod::lemma_fundamental_div_mod(a, f);
    vstd::arithmetic::div_mod::lemma_fundamental_div_mod(b, f);
    vstd::arithmetic::div_mod::lemma_fundamental_div_mod_converse(a - b, f, a / f - b / f, 0);
}

} // verus!
