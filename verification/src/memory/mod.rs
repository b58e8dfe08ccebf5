//! Physical memory management.
use vstd::prelude::*;

pub mod bits;
pub mod frame;
pub mod heap;
pub mod laws;

use crate::memory::frame::{
    alloc_step, count_free, dealloc_step, init_defined, init_model, mark_range_step, Frame,
    FrameAllocator, FrameError, FrameModel, MemoryRegion, MemoryRegionKind, FRAME_SIZE,
};

verus! {

/// `value` rounded up to the next multiple of `align` (a power of two).
pub open spec fn spec_align_up(value: int, align: int) -> int {
    (value + align - 1) / align * align
}

/// Rounds `value` up to a multiple of `align`, which must be a power of two.
pub fn align_up(value: usize, align: usize) -> (r: usize)
    requires
        exists|k: usize| k < usize::BITS && align == 1usize << k,
        value + align - 1 <= usize::MAX,
    ensures
        r == spec_align_up(value as int, align as int),
        r % align == 0,
        value <= r < value + align,
{
    let ghost k: usize = choose|k: usize| k < usize::BITS && align == 1usize << k;
    proof {
        let v = (value + align - 1) as usize;
        lemma_round_down_pow2(v, align, k);
        lemma_round_up_bounds(value as int, align as int);
    }
    (value + (align - 1)) & !(align - 1)
}

/// Rounding up to a multiple of a positive `align` lands in `[value, value + align)`.
pub proof fn lemma_round_up_bounds(value: int, align: int)
    requires
        0 <= value,
        0 < align,
    ensures
        spec_align_up(value, align) % align == 0,
        value <= spec_align_up(value, align) < value + align,
{
    let v = value + align - 1;
    vstd::arithmetic::div_mod::lemma_fundamental_div_mod(v, align);
    vstd::arithmetic::div_mod::lemma_mod_pos_bound(v, align);
    vstd::arithmetic::div_mod::lemma_mod_multiples_basic(v / align, align);
    assert(align * (v / align) == (v / align) * align) by (nonlinear_arith);
}

/// Clearing the low `k` bits of `v` rounds it down to a multiple of `2^k`.
pub proof fn lemma_round_down_pow2(v: usize, align: usize, k: usize)
    requires
        k < usize::BITS,
        align == 1usize << k,
    ensures
        v & !((align - 1) as usize) == v / align * align,
        align > 0,
{
    vstd::bits::lemma_usize_pow2_no_overflow(k as nat);
    vstd::bits::lemma_usize_shl_is_mul(1, k);
    assert(align == vstd::arithmetic::power2::pow2(k as nat));
    assert((align - 1) as usize == vstd::bits::low_bits_mask(k as nat) as usize);
    vstd::bits::lemma_usize_low_bits_mask_is_mod(v, k as nat);
    let m = (align - 1) as usize;
    assert(v & !m == v - (v & m)) by (bit_vector);
    vstd::arithmetic::div_mod::lemma_fundamental_div_mod(v as int, align as int);
    assert(align * (v / align) == (v / align) * align) by (nonlinear_arith);
}

/// The boot memory map's bootloader regions can be protected: their bounds
/// fit in machine words and the walk over their frames cannot overflow.
pub open spec fn protect_defined(rs: Seq<MemoryRegion>) -> bool {
    forall|k: int|
        0 <= k < rs.len() && #[trigger] rs[k].kind == MemoryRegionKind::Bootloader ==> rs[k].start
            <= usize::MAX && rs[k].end <= usize::MAX - (FRAME_SIZE - 1)
}

/// `m` with the frames of every bootloader region of `rs` marked used, in
/// map order.
pub open spec fn protect_model(m: FrameModel, rs: Seq<MemoryRegion>) -> FrameModel
    decreases rs.len(),
{
    if rs.len() == 0 {
        m
    } else {
        let prev = protect_model(m, rs.drop_last());
        let r = rs.last();
        if r.kind == MemoryRegionKind::Bootloader {
            mark_range_step(prev, r.start as usize, r.end as usize)
        } else {
            prev
        }
    }
}

/// Whether `init_frame_allocator` can work on `regions` without
/// overflowing or failing its internal checks.
pub fn boot_map_supported(regions: &[MemoryRegion]) -> (r: bool)
    ensures
        r == (init_defined(regions@) && protect_defined(regions@)),
{
    if !FrameAllocator::init_supported(regions) {
        return false;
    }
    let ghost rs = regions@;
    let mut i: usize = 0;
    while i < regions.len()
        invariant
            rs == regions@,
            i <= rs.len(),
            forall|k: int|
                0 <= k < i && #[trigger] rs[k].kind == MemoryRegionKind::Bootloader ==> rs[k].start
                    <= usize::MAX && rs[k].end <= usize::MAX - (FRAME_SIZE - 1),
        decreases rs.len() - i,
    {
        let r = regions[i];
        if r.kind == MemoryRegionKind::Bootloader && !(r.start <= usize::MAX as u64
            && r.end <= (usize::MAX - (FRAME_SIZE - 1)) as u64) {
            assert(rs[i as int].kind == MemoryRegionKind::Bootloader);
            return false;
        }
        i += 1;
    }
    true
}

/// Builds the frame allocator from the boot memory map, then protects the
/// bootloader-owned memory (kernel image, page tables, boot info, kernel
/// stack) from being handed out. `None` when there is nothing to manage.
pub fn init_frame_allocator(regions: &[MemoryRegion]) -> (r: Option<FrameAllocator>)
    requires
        init_defined(regions@),
        protect_defined(regions@),
    ensures
        match r {
            None => init_model(regions@) is None,
            Some(a) => a.wf() && init_model(regions@) is Some && a@ == protect_model(
                init_model(regions@)->0,
                regions@,
            ),
        },
{
    let mut allocator = FrameAllocator::init(regions);
    let ghost m0 = allocator->0@;
    let mut i: usize = 0;
    while i < regions.len()
        invariant
            protect_defined(regions@),
            i <= regions@.len(),
            allocator is None ==> init_model(regions@) is None,
            allocator is Some ==> allocator->0.wf() && init_model(regions@) == Some(m0)
                && allocator->0@ == protect_model(m0, regions@.take(i as int)),
        decreases regions@.len() - i,
    {
        let region = regions[i];
        proof {
            assert(regions@.take(i + 1).drop_last() =~= regions@.take(i as int));
            assert(regions@.take(i + 1).last() == regions@[i as int]);
        }
        if region.kind == MemoryRegionKind::Bootloader {
            assert(regions@[i as int].kind == MemoryRegionKind::Bootloader);
            match allocator {
                Some(ref mut a) => a.mark_range_used(region.start as usize, region.end as usize),
                None => {},
            }
        }
        i += 1;
    }
    proof {
        assert(regions@.take(regions@.len() as int) =~= regions@);
    }
    allocator
}

/// Allocates one physical frame from the installed allocator, if any.
/// Without one, returns `OutOfMemory`.
pub fn alloc_frame(slot: &mut Option<FrameAllocator>) -> (r: Result<Frame, FrameError>)
    requires
        (*old(slot)) is Some ==> (*old(slot))->0.wf(),
    ensures
        match *old(slot) {
            None => r == Err::<Frame, FrameError>(FrameError::OutOfMemory) && (*final(slot)) is None,
            Some(a) => (*final(slot)) is Some && (*final(slot))->0.wf() && (r, (*final(slot))->0@)
                == alloc_step(a@),
        },
{
    match slot {
        Some(a) => a.alloc_frame(),
        None => Err(FrameError::OutOfMemory),
    }
}

/// Frees a physical frame in the installed allocator, if any. Without one,
/// returns `OutOfRange`.
pub fn dealloc_frame(slot: &mut Option<FrameAllocator>, frame: Frame) -> (r: Result<(), FrameError>)
    requires
        (*old(slot)) is Some ==> (*old(slot))->0.wf(),
    ensures
        match *old(slot) {
            None => r == Err::<(), FrameError>(FrameError::OutOfRange) && (*final(slot)) is None,
            Some(a) => (*final(slot)) is Some && (*final(slot))->0.wf() && (r, (*final(slot))->0@)
                == dealloc_step(a@, frame),
        },
{
    match slot {
        Some(a) => a.dealloc_frame(frame),
        None => Err(FrameError::OutOfRange),
    }
}

/// Number of currently free frames; 0 without an installed allocator.
pub fn free_frames(slot: &Option<FrameAllocator>) -> (r: usize)
    requires
        (*slot) is Some ==> (*slot)->0.wf(),
    ensures
        match *slot {
            None => r == 0,
            Some(a) => r == count_free(a@.used),
        },
{
    match slot {
        Some(a) => a.free_frames(),
        None => 0,
    }
}

/// Marks a physical range as used in the installed allocator, if any.
pub fn mark_range_used(slot: &mut Option<FrameAllocator>, start: usize, end: usize)
    requires
        (*old(slot)) is Some ==> (*old(slot))->0.wf(),
        end <= usize::MAX - (FRAME_SIZE - 1),
    ensures
        match *old(slot) {
            None => (*final(slot)) is None,
            Some(a) => (*final(slot)) is Some && (*final(slot))->0.wf() && (*final(slot))->0@
                == mark_range_step(a@, start, end),
        },
{
    if let Some(a) = slot {
        a.mark_range_used(start, end);
    }
}

} // verus!
