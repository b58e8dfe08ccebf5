//! Properties of the frame allocator and the bump heap that span several
//! operations.
use vstd::prelude::*;

use crate::memory::frame::{
    alloc_step, count_free, dealloc_step, first_free, frame_addr, frame_index, in_gap, init_defined,
    init_model, largest_region, lemma_count_bounds, lemma_count_update, lemma_first_free,
    frame_overlaps, mark_range_step, model_wf, usable_regions, Frame, FrameError, FrameModel, MemoryRegion,
    MemoryRegionKind, FRAME_SIZE, LOW_MEM_END,
};
use crate::memory::{lemma_round_up_bounds, protect_model, spec_align_up};

verus! {

/// The frame that allocation hands out sits at index `i` of the frame space.
proof fn lemma_alloc_index(m: FrameModel, i: int)
    requires
        model_wf(m),
        0 <= i < m.used.len(),
    ensures
        frame_index(m.start, m.used.len() as int, frame_addr(m.start, i) as usize as int) == Some(i),
{
    assert(frame_addr(m.start, i) <= usize::MAX) by (nonlinear_arith)
        requires
            0 <= i < m.used.len(),
            m.start + m.used.len() * (FRAME_SIZE as int) <= usize::MAX,
    ;
}

/// Freeing the frame that was just allocated restores the allocator's state
/// exactly.
pub proof fn lemma_alloc_then_dealloc_restores(m: FrameModel)
    requires
        model_wf(m),
        alloc_step(m).0 is Ok,
    ensures
        dealloc_step(alloc_step(m).1, alloc_step(m).0->Ok_0) == (Ok::<(), FrameError>(()), m),
{
    lemma_first_free(m.used);
    let i = first_free(m.used)->0;
    lemma_alloc_index(m, i);
    let m1 = alloc_step(m).1;
    assert(m1.used.update(i, false) =~= m.used);
}

/// A frame that was just freed cannot be freed again: the second attempt is
/// a `DoubleFree` and changes nothing.
pub proof fn lemma_double_free_rejected(m: FrameModel, f: Frame)
    requires
        dealloc_step(m, f).0 is Ok,
    ensures
        dealloc_step(dealloc_step(m, f).1, f) == (Err::<(), FrameError>(FrameError::DoubleFree), dealloc_step(m, f).1),
{
}

/// Allocation hands out a frame that was free, lies inside the managed
/// range and is frame-aligned; afterwards it is in use, every other frame
/// keeps its state and one frame fewer is free.
pub proof fn lemma_alloc_takes_free_frame(m: FrameModel)
    requires
        model_wf(m),
        alloc_step(m).0 is Ok,
    ensures
        ({
            let f = alloc_step(m).0->Ok_0;
            let m2 = alloc_step(m).1;
            &&& f.addr % FRAME_SIZE == 0
            &&& m.start <= f.addr < m.start + m.used.len() * (FRAME_SIZE as int)
            &&& frame_index(m.start, m.used.len() as int, f.addr as int) matches Some(i) && !m.used[i]
                && m2.used[i] && forall|j: int| 0 <= j < m.used.len() && j != i ==> m2.used[j]
                == m.used[j]
            &&& m2.start == m.start
            &&& m2.used.len() == m.used.len()
            &&& count_free(m2.used) + 1 == count_free(m.used)
        }),
{
    lemma_first_free(m.used);
    let i = first_free(m.used)->0;
    lemma_alloc_index(m, i);
    lemma_count_update(m.used, i, true);
    assert(i * (FRAME_SIZE as int) < m.used.len() * (FRAME_SIZE as int)) by (nonlinear_arith)
        requires
            0 <= i < m.used.len(),
    ;
}

/// Allocation fails exactly when no frame is free, and a failed allocation
/// changes nothing.
pub proof fn lemma_out_of_memory(m: FrameModel)
    ensures
        (alloc_step(m).0 == Err::<Frame, FrameError>(FrameError::OutOfMemory)) <==> count_free(
            m.used,
        ) == 0,
        alloc_step(m).0 is Err ==> alloc_step(m).1 == m,
{
    lemma_first_free(m.used);
    lemma_count_bounds(m.used);
    if first_free(m.used) is Some {
        let i = first_free(m.used)->0;
        assert(!m.used[i]);
    }
}

/// Two allocations in a row hand out different frames.
pub proof fn lemma_allocations_distinct(m: FrameModel)
    requires
        model_wf(m),
        alloc_step(m).0 is Ok,
        alloc_step(alloc_step(m).1).0 is Ok,
    ensures
        alloc_step(m).0->Ok_0 != alloc_step(alloc_step(m).1).0->Ok_0,
{
    let m1 = alloc_step(m).1;
    lemma_alloc_takes_free_frame(m);
    assert(model_wf(m1));
    lemma_alloc_takes_free_frame(m1);
}

/// The state after `n` allocations in a row.
pub open spec fn alloc_times(m: FrameModel, n: nat) -> FrameModel
    decreases n,
{
    if n == 0 {
        m
    } else {
        alloc_step(alloc_times(m, (n - 1) as nat)).1
    }
}

/// Allocating repeatedly succeeds exactly as many times as frames are free,
/// and the next allocation runs out of memory.
pub proof fn lemma_allocations_until_exhausted(m: FrameModel, n: nat)
    requires
        model_wf(m),
        n <= count_free(m.used),
    ensures
        model_wf(alloc_times(m, n)),
        count_free(alloc_times(m, n).used) == count_free(m.used) - n,
        n < count_free(m.used) ==> alloc_step(alloc_times(m, n)).0 is Ok,
        n == count_free(m.used) ==> alloc_step(alloc_times(m, n)).0 == Err::<Frame, FrameError>(
            FrameError::OutOfMemory,
        ),
    decreases n,
{
    if n > 0 {
        lemma_allocations_until_exhausted(m, (n - 1) as nat);
        let p = alloc_times(m, (n - 1) as nat);
        lemma_out_of_memory(p);
        lemma_alloc_takes_free_frame(p);
    }
    lemma_out_of_memory(alloc_times(m, n));
}

/// Freeing a used frame frees exactly that frame: one more frame is free and
/// every other frame keeps its state.
pub proof fn lemma_dealloc_frees_frame(m: FrameModel, f: Frame)
    requires
        dealloc_step(m, f).0 is Ok,
    ensures
        ({
            let m2 = dealloc_step(m, f).1;
            &&& frame_index(m.start, m.used.len() as int, f.addr as int) matches Some(i) && m.used[i]
                && !m2.used[i] && forall|j: int| 0 <= j < m.used.len() && j != i ==> m2.used[j]
                == m.used[j]
            &&& count_free(m2.used) == count_free(m.used) + 1
        }),
{
    let i = frame_index(m.start, m.used.len() as int, f.addr as int)->0;
    lemma_count_update(m.used, i, false);
}

/// Marking a range used never frees a frame, leaves every managed frame that
/// shares a byte with the range in use and every other frame as it was, and
/// marking the same range again changes nothing.
pub proof fn lemma_mark_range(m: FrameModel, start: usize, end: usize)
    ensures
        ({
            let m2 = mark_range_step(m, start, end);
            &&& m2.start == m.start
            &&& m2.used.len() == m.used.len()
            &&& forall|i: int| 0 <= i < m.used.len() && m.used[i] ==> m2.used[i]
            &&& forall|i: int|
                0 <= i < m.used.len() ==> #[trigger] m2.used[i] == (m.used[i] || {
                    let a = m.start + i * (FRAME_SIZE as int);
                    start < end && a < end && start < a + (FRAME_SIZE as int)
                })
            &&& count_free(m2.used) <= count_free(m.used)
            &&& mark_range_step(m2, start, end) == m2
        }),
{
    let m2 = mark_range_step(m, start, end);
    lemma_count_monotone(m.used, m2.used);
    assert(mark_range_step(m2, start, end).used =~= m2.used);
}

/// The index of a frame's address is that frame, and a frame address's
/// index leads back to the address.
pub proof fn lemma_frame_index_addr(start: int, len: int, i: int, addr: int)
    requires
        start % (FRAME_SIZE as int) == 0,
    ensures
        0 <= i < len ==> frame_index(start, len, frame_addr(start, i)) == Some(i),
        frame_index(start, len, addr) matches Some(j) ==> 0 <= j < len && frame_addr(start, j) == addr,
{
    let f = FRAME_SIZE as int;
    if frame_index(start, len, addr) is Some {
        vstd::arithmetic::div_mod::lemma_fundamental_div_mod(addr - start, f);
    }
}

/// Using more frames never increases the free count.
proof fn lemma_count_monotone(a: Seq<bool>, b: Seq<bool>)
    requires
        a.len() == b.len(),
        forall|i: int| 0 <= i < a.len() && a[i] ==> b[i],
    ensures
        count_free(b) <= count_free(a),
    decreases a.len(),
{
    if a.len() > 0 {
        lemma_count_monotone(a.drop_last(), b.drop_last());
        assert(a.last() == a[a.len() - 1]);
    }
}

/// The usable regions, clipped, come in address order without overlap.
pub open spec fn usable_sorted(rs: Seq<MemoryRegion>) -> bool {
    let u = usable_regions(rs);
    forall|k: int| 1 <= k < u.len() ==> #[trigger] u[k - 1].1 <= u[k].0
}

/// With sorted regions, an address between the start of the first region
/// and the end of the last lies in a region or in a gap between two.
proof fn lemma_covered(u: Seq<(int, int)>, a: int)
    requires
        u.len() > 0,
        forall|k: int| 1 <= k < u.len() ==> #[trigger] u[k - 1].1 <= u[k].0,
        u[0].0 <= a < u.last().1,
    ensures
        in_gap(u, a) || exists|k: int| 0 <= k < u.len() && #[trigger] u[k].0 <= a < u[k].1,
    decreases u.len(),
{
    let n = u.len() as int;
    if a >= u[n - 1].0 {
        assert(u[n - 1].0 <= a < u[n - 1].1);
    } else if n > 1 && a >= u[n - 2].1 {
        assert(u[(n - 1) - 1].1 <= a < u[n - 1].0);
    } else {
        let p = u.drop_last();
        assert forall|k: int| 1 <= k < p.len() implies #[trigger] p[k - 1].1 <= p[k].0 by {
            assert(u[k - 1].1 <= u[k].0);
        }
        lemma_covered(p, a);
        if in_gap(p, a) {
            let k = choose|k: int| 1 <= k < p.len() && #[trigger] p[k - 1].1 <= a < p[k].0;
            assert(u[k - 1].1 <= a < u[k].0);
        } else {
            let k = choose|k: int| 0 <= k < p.len() && #[trigger] p[k].0 <= a < p[k].1;
            assert(u[k].0 <= a < u[k].1);
        }
    }
}

/// The allocator built from the memory map manages an aligned frame space
/// that fits in machine words, keeps the bitmap frame in use, and, when the
/// usable regions come in address order, leaves free only frames that lie
/// inside a usable region.
pub proof fn lemma_init_frees_only_usable(rs: Seq<MemoryRegion>)
    requires
        init_defined(rs),
        init_model(rs) is Some,
        usable_sorted(rs),
    ensures
        ({
            let m = init_model(rs)->0;
            let u = usable_regions(rs);
            &&& model_wf(m)
            &&& m.used[(u[largest_region(u)].0 - m.start) / (FRAME_SIZE as int)]
            &&& forall|i: int|
                0 <= i < m.used.len() && !m.used[i] ==> exists|k: int|
                    0 <= k < u.len() && #[trigger] u[k].0 <= frame_addr(m.start, i) < u[k].1
        }),
{
    let m = init_model(rs)->0;
    let u = usable_regions(rs);
    let f = FRAME_SIZE as int;
    crate::memory::frame::lemma_usable_regions(rs);
    let total = (u.last().1 - u[0].0) / f;
    crate::memory::frame::lemma_aligned_diff(u.last().1, u[0].0);
    assert(m.start + m.used.len() * f == u.last().1);
    crate::memory::frame::lemma_largest_region(u);
    let li = largest_region(u);
    let b = (u[li].0 - m.start) / f;
    assert(0 <= b < m.used.len()) by (nonlinear_arith)
        requires
            b == (u[li].0 - m.start) / f,
            0 <= u[li].0 - m.start < m.used.len() * f,
            f > 0,
    ;
    assert forall|i: int| 0 <= i < m.used.len() && !m.used[i] implies exists|k: int|
        0 <= k < u.len() && #[trigger] u[k].0 <= frame_addr(m.start, i) < u[k].1 by {
        assert(i * f < m.used.len() * f) by (nonlinear_arith)
            requires
                0 <= i < m.used.len(),
                f > 0,
        ;
        lemma_covered(u, frame_addr(m.start, i));
    }
}

/// Protecting the bootloader regions never frees a frame and leaves every
/// managed frame that shares a byte with a bootloader region in use.
pub proof fn lemma_protect_covers_bootloader(m: FrameModel, rs: Seq<MemoryRegion>)
    ensures
        ({
            let p = protect_model(m, rs);
            &&& p.start == m.start
            &&& p.used.len() == m.used.len()
            &&& forall|i: int| 0 <= i < m.used.len() && m.used[i] ==> p.used[i]
            &&& forall|k: int, i: int|
                #![trigger rs[k], p.used[i]]
                0 <= k < rs.len() && rs[k].kind == MemoryRegionKind::Bootloader && 0 <= i
                    < m.used.len() && frame_overlaps(
                    frame_addr(m.start, i),
                    rs[k].start as usize as int,
                    rs[k].end as usize as int,
                ) ==> p.used[i]
        }),
    decreases rs.len(),
{
    if rs.len() > 0 {
        let q = rs.drop_last();
        lemma_protect_covers_bootloader(m, q);
        let prev = protect_model(m, q);
        let r = rs.last();
        if r.kind == MemoryRegionKind::Bootloader {
            lemma_mark_range(prev, r.start as usize, r.end as usize);
        }
        let p = protect_model(m, rs);
        assert forall|k: int, i: int|
            #![trigger rs[k], p.used[i]]
            0 <= k < rs.len() && rs[k].kind == MemoryRegionKind::Bootloader && 0 <= i
                < m.used.len() && frame_overlaps(
                frame_addr(m.start, i),
                rs[k].start as usize as int,
                rs[k].end as usize as int,
            ) implies p.used[i] by {
            if k < q.len() {
                assert(q[k] == rs[k]);
                assert(prev.used[i]);
            }
        }
    }
}

/// Two bump allocations in a row hand out aligned blocks that do not
/// overlap: the second starts at or after the end of the first.
pub proof fn lemma_bump_blocks_disjoint(next: nat, size1: nat, align1: nat, align2: nat)
    requires
        align1 > 0,
        align2 > 0,
    ensures
        ({
            let start1 = spec_align_up(next as int, align1 as int);
            let start2 = spec_align_up(start1 + size1, align2 as int);
            &&& start1 % (align1 as int) == 0
            &&& start2 % (align2 as int) == 0
            &&& next <= start1
            &&& start1 + size1 <= start2
        }),
{
    let start1 = spec_align_up(next as int, align1 as int);
    lemma_round_up_bounds(next as int, align1 as int);
    lemma_round_up_bounds(start1 + size1, align2 as int);
}

/// Protecting the bootloader regions uses exactly the frames that were used
/// already or share a byte with some bootloader region of the map; every
/// other frame, in particular every frame between two bootloader regions
/// that belongs to neither, keeps its state.
pub proof fn lemma_protect_exact(m: FrameModel, rs: Seq<MemoryRegion>)
    ensures
        protect_model(m, rs).start == m.start,
        protect_model(m, rs).used.len() == m.used.len(),
        forall|i: int|
            0 <= i < m.used.len() ==> #[trigger] protect_model(m, rs).used[i] == (m.used[i]
                || exists|k: int|
                0 <= k < rs.len() && rs[k].kind == MemoryRegionKind::Bootloader && {
                    let a = m.start + i * (FRAME_SIZE as int);
                    let s = rs[k].start as usize as int;
                    let e = rs[k].end as usize as int;
                    s < e && a < e && s < a + (FRAME_SIZE as int)
                }),
    decreases rs.len(),
{
    if rs.len() > 0 {
        let q = rs.drop_last();
        lemma_protect_exact(m, q);
        let prev = protect_model(m, q);
        let r = rs.last();
        let p = protect_model(m, rs);
        assert forall|i: int| 0 <= i < m.used.len() implies #[trigger] p.used[i] == (m.used[i]
            || exists|k: int|
            0 <= k < rs.len() && rs[k].kind == MemoryRegionKind::Bootloader && {
                let a = m.start + i * (FRAME_SIZE as int);
                let s = rs[k].start as usize as int;
                let e = rs[k].end as usize as int;
                s < e && a < e && s < a + (FRAME_SIZE as int)
            }) by {
            let a = m.start + i * (FRAME_SIZE as int);
            let in_q = exists|k: int|
                0 <= k < q.len() && q[k].kind == MemoryRegionKind::Bootloader && {
                    let s = q[k].start as usize as int;
                    let e = q[k].end as usize as int;
                    s < e && a < e && s < a + (FRAME_SIZE as int)
                };
            assert(prev.used[i] == (m.used[i] || in_q));
            if in_q {
                let k = choose|k: int|
                    0 <= k < q.len() && q[k].kind == MemoryRegionKind::Bootloader && {
                        let s = q[k].start as usize as int;
                        let e = q[k].end as usize as int;
                        s < e && a < e && s < a + (FRAME_SIZE as int)
                    };
                assert(rs[k] == q[k]);
            }
            if exists|k: int|
                0 <= k < rs.len() && rs[k].kind == MemoryRegionKind::Bootloader && {
                    let s = rs[k].start as usize as int;
                    let e = rs[k].end as usize as int;
                    s < e && a < e && s < a + (FRAME_SIZE as int)
                } {
                let k = choose|k: int|
                    0 <= k < rs.len() && rs[k].kind == MemoryRegionKind::Bootloader && {
                        let s = rs[k].start as usize as int;
                        let e = rs[k].end as usize as int;
                        s < e && a < e && s < a + (FRAME_SIZE as int)
                    };
                if k < q.len() {
                    assert(q[k] == rs[k]);
                } else {
                    assert(rs[k] == r);
                }
            }
        }
    }
}

/// Allocation hands out the lowest free frame: every frame below it is in
/// use, it was free, and it is the only frame that changes. It fails, with
/// `OutOfMemory` and no change, exactly when every frame is in use.
pub proof fn lemma_alloc_lowest(m: FrameModel)
    requires
        model_wf(m),
    ensures
        (forall|j: int| 0 <= j < m.used.len() ==> #[trigger] m.used[j]) ==> alloc_step(m) == (
        Err::<Frame, FrameError>(FrameError::OutOfMemory), m),
        (exists|j: int| 0 <= j < m.used.len() && !#[trigger] m.used[j]) ==> exists|i: int|
            {
                &&& 0 <= i < m.used.len()
                &&& !m.used[i]
                &&& forall|j: int| 0 <= j < i ==> #[trigger] m.used[j]
                &&& alloc_step(m).0 == Ok::<Frame, FrameError>(
                    Frame { addr: (m.start + i * (FRAME_SIZE as int)) as usize },
                )
                &&& alloc_step(m).1.start == m.start
                &&& alloc_step(m).1.used == m.used.update(i, true)
            },
{
    lemma_first_free(m.used);
    if first_free(m.used) is Some {
        let i = first_free(m.used)->0;
        assert(!m.used[i]);
    } else if exists|j: int| 0 <= j < m.used.len() && !#[trigger] m.used[j] {
        let j = choose|j: int| 0 <= j < m.used.len() && !#[trigger] m.used[j];
        assert(m.used[j]);
    }
}

/// Deallocation of the frame at index `i`: a used frame becomes free and is
/// the only frame that changes; a free one is a `DoubleFree` with no change.
/// An address that is not the start of a managed frame is `OutOfRange` with
/// no change.
pub proof fn lemma_dealloc_outcomes(m: FrameModel, addr: usize, i: int)
    requires
        model_wf(m),
    ensures
        0 <= i < m.used.len() && addr == m.start + i * (FRAME_SIZE as int) ==> {
            &&& m.used[i] ==> dealloc_step(m, Frame { addr }).0 is Ok && dealloc_step(
                m,
                Frame { addr },
            ).1 == (FrameModel { start: m.start, used: m.used.update(i, false) })
            &&& !m.used[i] ==> dealloc_step(m, Frame { addr }) == (
            Err::<(), FrameError>(FrameError::DoubleFree), m)
        },
        (forall|j: int| 0 <= j < m.used.len() ==> addr != #[trigger] frame_addr(m.start, j))
            ==> dealloc_step(m, Frame { addr }) == (Err::<(), FrameError>(FrameError::OutOfRange), m),
{
    lemma_frame_index_addr(m.start, m.used.len() as int, i, addr as int);
    if frame_index(m.start, m.used.len() as int, addr as int) is Some {
        let j = frame_index(m.start, m.used.len() as int, addr as int)->0;
        assert(addr == frame_addr(m.start, j));
    }
}

/// Sorted, non-empty regions are ordered by both bounds, and an earlier
/// region ends no later than a later one starts.
proof fn lemma_sorted_mono(u: Seq<(int, int)>, x: int, y: int)
    requires
        forall|k: int| 1 <= k < u.len() ==> #[trigger] u[k - 1].1 <= u[k].0,
        forall|k: int| 0 <= k < u.len() ==> #[trigger] u[k].0 < u[k].1,
        0 <= x <= y < u.len(),
    ensures
        u[x].0 <= u[y].0,
        u[x].1 <= u[y].1,
        x < y ==> u[x].1 <= u[y].0,
    decreases y - x,
{
    if x < y {
        lemma_sorted_mono(u, x, y - 1);
        assert(u[y - 1].1 <= u[y].0);
        assert(u[y - 1].0 < u[y - 1].1);
        assert(u[y].0 < u[y].1);
    }
}

/// The region `largest_region` picks is at least as large as every other,
/// and strictly larger than every region after it.
pub proof fn lemma_largest_region_is_largest(u: Seq<(int, int)>)
    requires
        u.len() > 0,
    ensures
        0 <= largest_region(u) < u.len(),
        forall|j: int|
            0 <= j < u.len() ==> #[trigger] (u[j].1 - u[j].0) <= u[largest_region(u)].1 - u[largest_region(
                u,
            )].0,
        forall|j: int|
            largest_region(u) < j < u.len() ==> #[trigger] (u[j].1 - u[j].0) < u[largest_region(
                u,
            )].1 - u[largest_region(u)].0,
    decreases u.len(),
{
    if u.len() > 1 {
        let p = u.drop_last();
        lemma_largest_region_is_largest(p);
        assert forall|j: int| 0 <= j < p.len() implies p[j] == u[j] by {}
    }
}

/// The allocator built from a memory map whose usable regions come in
/// address order manages the frames from the start of the first usable
/// region to the end of the last, and a frame starts out used exactly when
/// it holds the bitmap (the start of the largest usable region) or lies
/// outside every usable region.
pub proof fn lemma_init_exact(rs: Seq<MemoryRegion>)
    requires
        init_defined(rs),
        init_model(rs) is Some,
        usable_sorted(rs),
    ensures
        ({
            let m = init_model(rs)->0;
            let u = usable_regions(rs);
            let b = (u[largest_region(u)].0 - m.start) / (FRAME_SIZE as int);
            &&& m.start == u[0].0
            &&& m.start + m.used.len() * (FRAME_SIZE as int) == u.last().1
            &&& forall|i: int|
                0 <= i < m.used.len() ==> #[trigger] m.used[i] == (i == b || !exists|k: int|
                    0 <= k < u.len() && (#[trigger] u[k]).0 <= m.start + i * (FRAME_SIZE as int)
                        < u[k].1)
        }),
{
    let m = init_model(rs)->0;
    let u = usable_regions(rs);
    let f = FRAME_SIZE as int;
    crate::memory::frame::lemma_usable_regions(rs);
    crate::memory::frame::lemma_aligned_diff(u.last().1, u[0].0);
    assert forall|k: int| 0 <= k < u.len() implies #[trigger] u[k].0 < u[k].1 by {}
    assert forall|i: int| 0 <= i < m.used.len() implies #[trigger] m.used[i] == (i == (u[largest_region(
        u,
    )].0 - m.start) / f || !exists|k: int|
        0 <= k < u.len() && (#[trigger] u[k]).0 <= m.start + i * f < u[k].1) by {
        let a = m.start + i * f;
        assert(i * f < m.used.len() * f) by (nonlinear_arith)
            requires
                0 <= i < m.used.len(),
                f > 0,
        ;
        lemma_covered(u, a);
        if in_gap(u, a) {
            let j = choose|j: int| 1 <= j < u.len() && #[trigger] u[j - 1].1 <= a < u[j].0;
            if exists|k: int| 0 <= k < u.len() && (#[trigger] u[k]).0 <= a < u[k].1 {
                let k = choose|k: int| 0 <= k < u.len() && (#[trigger] u[k]).0 <= a < u[k].1;
                if k <= j - 1 {
                    lemma_sorted_mono(u, k, j - 1);
                } else {
                    lemma_sorted_mono(u, j, k);
                }
            }
        }
        if exists|k: int| 0 <= k < u.len() && #[trigger] u[k].0 <= a < u[k].1 {
            let k = choose|k: int| 0 <= k < u.len() && #[trigger] u[k].0 <= a < u[k].1;
            assert(u[k].0 <= a < u[k].1);
        }
    }
}

/// Every usable region the allocator works with is a frame-aligned piece,
/// above the legacy low-memory end, of a usable region of the map.
pub proof fn lemma_usable_regions_sound(rs: Seq<MemoryRegion>)
    ensures
        forall|k: int|
            0 <= k < usable_regions(rs).len() ==> {
                let c = #[trigger] usable_regions(rs)[k];
                &&& LOW_MEM_END <= c.0 < c.1
                &&& c.0 % (FRAME_SIZE as int) == 0
                &&& c.1 % (FRAME_SIZE as int) == 0
                &&& exists|j: int|
                    0 <= j < rs.len() && (#[trigger] rs[j]).kind == MemoryRegionKind::Usable
                        && rs[j].start <= c.0 && c.1 <= rs[j].end
            },
    decreases rs.len(),
{
    if rs.len() > 0 {
        let p = rs.drop_last();
        lemma_usable_regions_sound(p);
        let r = rs.last();
        let u = usable_regions(rs);
        let up = usable_regions(p);
        let f = FRAME_SIZE as int;
        lemma_round_up_bounds(r.start as int, f);
        vstd::arithmetic::div_mod::lemma_fundamental_div_mod(r.end as int, f);
        vstd::arithmetic::div_mod::lemma_mod_pos_bound(r.end as int, f);
        vstd::arithmetic::div_mod::lemma_mod_multiples_basic((r.end as int) / f, f);
        assert forall|k: int| 0 <= k < u.len() implies {
            let c = #[trigger] u[k];
            &&& LOW_MEM_END <= c.0 < c.1
            &&& c.0 % (FRAME_SIZE as int) == 0
            &&& c.1 % (FRAME_SIZE as int) == 0
            &&& exists|j: int|
                0 <= j < rs.len() && (#[trigger] rs[j]).kind == MemoryRegionKind::Usable
                    && rs[j].start <= c.0 && c.1 <= rs[j].end
        } by {
            if k < up.len() {
                assert(u[k] == up[k]);
                let j = choose|j: int|
                    0 <= j < p.len() && (#[trigger] p[j]).kind == MemoryRegionKind::Usable
                        && p[j].start <= up[k].0 && up[k].1 <= p[j].end;
                assert(rs[j] == p[j]);
            } else {
                assert(rs[rs.len() - 1] == r);
            }
        }
    }
}

/// Every whole frame above the legacy low-memory end that lies inside a
/// usable region of the map lies inside one of the allocator's usable
/// regions.
pub proof fn lemma_usable_regions_complete(rs: Seq<MemoryRegion>, j: int, addr: int)
    requires
        0 <= j < rs.len(),
        rs[j].kind == MemoryRegionKind::Usable,
        addr % (FRAME_SIZE as int) == 0,
        LOW_MEM_END <= addr,
        rs[j].start <= addr,
        addr + FRAME_SIZE <= rs[j].end,
    ensures
        exists|k: int|
            0 <= k < usable_regions(rs).len() && (#[trigger] usable_regions(rs)[k]).0 <= addr
                < usable_regions(rs)[k].1,
    decreases rs.len(),
{
    let p = rs.drop_last();
    let u = usable_regions(rs);
    let up = usable_regions(p);
    if j < rs.len() - 1 {
        assert(p[j] == rs[j]);
        lemma_usable_regions_complete(p, j, addr);
        let k = choose|k: int| 0 <= k < up.len() && (#[trigger] up[k]).0 <= addr < up[k].1;
        assert(u[k] == up[k]);
    } else {
        let r = rs.last();
        let f = FRAME_SIZE as int;
        let st = r.start as int;
        let en = r.end as int;
        vstd::arithmetic::div_mod::lemma_fundamental_div_mod(st + f - 1, f);
        vstd::arithmetic::div_mod::lemma_mod_pos_bound(st + f - 1, f);
        vstd::arithmetic::div_mod::lemma_fundamental_div_mod(en, f);
        vstd::arithmetic::div_mod::lemma_mod_pos_bound(en, f);
        vstd::arithmetic::div_mod::lemma_fundamental_div_mod(addr, f);
        let c = crate::memory::frame::clip(r);
        assert(c.0 <= addr) by {
            assert(spec_align_up(st, f) == (st + f - 1) / f * f);
            assert((st + f - 1) / f <= addr / f) by (nonlinear_arith)
                requires
                    st <= addr,
                    addr == f * (addr / f),
                    st + f - 1 == f * ((st + f - 1) / f) + (st + f - 1) % f,
                    0 <= (st + f - 1) % f < f,
                    f > 0,
            ;
            assert((st + f - 1) / f * f <= addr / f * f) by (nonlinear_arith)
                requires
                    (st + f - 1) / f <= addr / f,
                    f > 0,
            ;
        }
        assert(addr + f <= c.1) by {
            assert(addr / f + 1 <= en / f) by (nonlinear_arith)
                requires
                    addr + f <= en,
                    addr == f * (addr / f),
                    en == f * (en / f) + en % f,
                    0 <= en % f < f,
                    f > 0,
            ;
            assert((addr / f + 1) * f <= en / f * f) by (nonlinear_arith)
                requires
                    addr / f + 1 <= en / f,
                    f > 0,
            ;
        }
        assert(u[u.len() - 1] == c);
    }
}

/// A memory map whose usable regions fit in machine words and come in
/// address order can always be turned into an allocator, unless its usable
/// span holds more frames than one bitmap frame can track.
pub proof fn lemma_sorted_map_supported(rs: Seq<MemoryRegion>)
    requires
        forall|k: int|
            0 <= k < rs.len() && #[trigger] rs[k].kind == MemoryRegionKind::Usable ==> rs[k].start
                + FRAME_SIZE - 1 <= usize::MAX && rs[k].end <= usize::MAX,
        usable_sorted(rs),
        usable_regions(rs).len() > 0 ==> usable_regions(rs).last().1 - usable_regions(rs)[0].0
            <= (FRAME_SIZE as int) * (FRAME_SIZE as int) * 8,
    ensures
        init_defined(rs),
{
    let u = usable_regions(rs);
    crate::memory::frame::lemma_usable_regions(rs);
    if u.len() > 0 {
        assert forall|k: int| 0 <= k < u.len() implies #[trigger] u[k].0 < u[k].1 by {}
        let n = u.len() - 1;
        lemma_sorted_mono(u, 0, n);
        crate::memory::frame::lemma_largest_region(u);
        let li = largest_region(u);
        lemma_sorted_mono(u, 0, li);
        lemma_sorted_mono(u, li, n);
        let f = FRAME_SIZE as int;
        assert((u.last().1 - u[0].0) / f <= f * 8) by (nonlinear_arith)
            requires
                0 <= u.last().1 - u[0].0 <= f * f * 8,
                f > 0,
        ;
    }
}

} // verus!
