//! Bump allocation over a fixed heap area. It never frees memory and only
//! exists so that boxes, vectors and formatting work in the kernel.
use vstd::prelude::*;

verus! {

/// Size in bytes of the heap area.
pub const HEAP_SIZE: usize = 8 * 1024 * 1024;

/// Bump allocator state: byte offsets from the base of the heap area.
pub struct BumpAllocator {
    next: usize,
    end: usize,
}

impl BumpAllocator {
    /// Offset of the first byte not yet handed out.
    pub closed spec fn next(&self) -> nat {
        self.next as nat
    }

    /// Offset just past the heap area.
    pub closed spec fn end(&self) -> nat {
        self.end as nat
    }

    /// A fresh allocator over the whole heap area.
    pub fn new() -> (r: Self)
        ensures
            r.next() == 0,
            r.end() == HEAP_SIZE,
    {
        Self { next: 0, end: HEAP_SIZE }
    }

    /// Hands out `size` bytes aligned to `align` (a power of two), as an
    /// offset from the heap base: the block starts at `next` rounded up to
    /// `align`. Returns `None`, leaving the state unchanged, when the block
    /// does not fit before the end of the heap.
    pub fn allocate(&mut self, size: usize, align: usize) -> (r: Option<usize>)
        requires
            exists|k: usize| k < usize::BITS && align == 1usize << k,
            old(self).next() + align - 1 <= usize::MAX,
        ensures
            final(self).end() == old(self).end(),
            old(self).next() <= old(self).end() ==> final(self).next() <= final(self).end(),
            ({
                let start = crate::memory::spec_align_up(old(self).next() as int, align as int);
                if start + size > old(self).end() {
                    r is None && final(self).next() == old(self).next()
                } else {
                    r == Some(start as usize) && final(self).next() == start + size
                }
            }),
            r matches Some(s) ==> {
                &&& s % align == 0
                &&& old(self).next() <= s < old(self).next() + align
                &&& s + size <= old(self).end()
                &&& final(self).next() == s + size
            },
            r is None ==> final(self).next() == old(self).next() && forall|s: int|
                #![trigger s % (align as int)]
                s % (align as int) == 0 && old(self).next() <= s < old(self).next() + align ==> s
                    + size > old(self).end(),
    {
        proof {
            let ghost k: usize = choose|k: usize| k < usize::BITS && align == 1usize << k;
            crate::memory::lemma_round_down_pow2(0, align, k);
            crate::memory::lemma_round_up_bounds(self.next as int, align as int);
            assert forall|s: int|
                #![trigger s % (align as int)]
                s % (align as int) == 0 && self.next <= s < self.next + align implies s
                    == crate::memory::spec_align_up(self.next as int, align as int) by {
                lemma_one_multiple_in_window(
                    s,
                    crate::memory::spec_align_up(self.next as int, align as int),
                    self.next as int,
                    align as int,
                );
            }
        }
        let start = crate::memory::align_up(self.next, align);
        let end = match start.checked_add(size) {
            Some(end) => end,
            None => return None,
        };
        if end > self.end {
            return None;
        }
        self.next = end;
        Some(start)
    }
}

/// A window of `align` consecutive integers holds at most one multiple of
/// `align`.
proof fn lemma_one_multiple_in_window(s: int, t: int, lo: int, align: int)
    requires
        align > 0,
        s % align == 0,
        t % align == 0,
        lo <= s < lo + align,
        lo <= t < lo + align,
    ensures
        s == t,
{
    vstd::arithmetic::div_mod::lemma_fundamental_div_mod(s, align);
    vstd::arithmetic::div_mod::lemma_fundamental_div_mod(t, align);
    let qs = s / align;
    let qt = t / align;
    assert(qs == qt) by (nonlinear_arith)
        requires
            s == align * qs,
            t == align * qt,
            s - t < align,
            t - s < align,
            align > 0,
    ;
}

} // verus!
