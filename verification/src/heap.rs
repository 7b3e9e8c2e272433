//! The bump allocator that backs the global allocator of the chapter-one game:
//! a fixed 64 KiB arena handed out front to back, never reclaimed.
use vstd::prelude::*;

verus! {

/// Size of the arena in bytes.
pub const HEAP_SIZE: usize = 0x1_0000;

/// `x` rounded up to a multiple of `align`.
pub open spec fn round_up(x: int, align: int) -> int {
    x + (align - x % align) % align
}

/// `round_up(x, align)` is the first multiple of `align` from `x` on.
pub proof fn lemma_round_up(x: int, align: int)
    requires
        x >= 0,
        align > 0,
    ensures
        round_up(x, align) % align == 0,
        x <= round_up(x, align) < x + align,
{
    let r = x % align;
    let pad = (align - r) % align;
    if r == 0 {
        assert(pad == 0) by {
            vstd::arithmetic::div_mod::lemma_mod_self_0(align);
        }
    } else {
        assert(pad == align - r) by {
            vstd::arithmetic::div_mod::lemma_small_mod((align - r) as nat, align as nat);
        }
        vstd::arithmetic::div_mod::lemma_mod_adds(x, align - r, align);
        vstd::arithmetic::div_mod::lemma_mod_sub_multiples_vanish(x, align);
        vstd::arithmetic::div_mod::lemma_fundamental_div_mod(x, align);
        assert((x + (align - r)) == align * (x / align + 1)) by (nonlinear_arith)
            requires
                x == align * (x / align) + r,
        ;
        vstd::arithmetic::div_mod::lemma_mod_multiples_basic(x / align + 1, align);
        assert(align * (x / align + 1) == (x / align + 1) * align) by (nonlinear_arith);
    }
}

/// Where a block aligned to `align` starts when the arena at `base` has its next
/// free byte at offset `cursor`.
pub open spec fn block_start(base: int, cursor: int, align: int) -> int {
    round_up(base + cursor, align)
}

/// The cursor once a block of `size` bytes aligned to `align` has been handed out.
pub open spec fn cursor_after(base: int, cursor: int, size: int, align: int) -> int {
    block_start(base, cursor, align) - base + size
}

/// A bump allocator over the arena that starts at address `base`: `cursor` is the
/// offset of the next free byte.
pub struct BumpAlloc {
    /// Address of the first byte of the arena.
    pub base: usize,
    /// Offset of the next free byte.
    pub cursor: usize,
}

impl BumpAlloc {
    /// An allocator over the arena at `base`, nothing handed out yet.
    pub fn new(base: usize) -> (r: BumpAlloc)
        ensures
            r.base == base,
            r.cursor == 0,
    {
        BumpAlloc { base, cursor: 0 }
    }

    /// Hands out `size` bytes aligned to `align`: the block starts at the first
    /// address from the cursor on that `align` divides.  Gives `None` (a null
    /// pointer) when the block would run past the end of the arena; the cursor then
    /// stays where it was.
    pub fn allocate(&mut self, size: usize, align: usize) -> (r: Option<usize>)
        requires
            align > 0,
            old(self).base + old(self).cursor + align <= usize::MAX,
            round_up(old(self).base + old(self).cursor, align as int) - old(self).base + size <= usize::MAX,
        ensures
            ({
                let start = block_start(old(self).base as int, old(self).cursor as int, align as int);
                let next = cursor_after(old(self).base as int, old(self).cursor as int, size as int, align as int);
                &&& final(self).base == old(self).base
                &&& next > HEAP_SIZE ==> r is None && final(self).cursor == old(self).cursor
                &&& next <= HEAP_SIZE ==> r == Some(start as usize) && final(self).cursor == next
            }),
            r matches Some(p) ==> p % align == 0 && p >= old(self).base + old(self).cursor && p + size
                == final(self).base + final(self).cursor,
    {
        let cur = self.cursor;
        let x = self.base + cur;
        let rem = x % align;
        let pad = (align - rem) % align;
        let start = x + pad;
        proof {
            lemma_round_up(x as int, align as int);
        }
        let next = start - self.base + size;
        if next > HEAP_SIZE {
            return None;
        }
        self.cursor = next;
        Some(start)
    }
}

/// Two blocks handed out one after the other do not overlap: the second starts at
/// or after the end of the first, each starts aligned, and the cursor only moves
/// forward.  Since giving a block back changes nothing, no byte is handed out twice.
pub proof fn lemma_allocations_disjoint(
    b: BumpAlloc,
    size1: usize,
    align1: usize,
    size2: usize,
    align2: usize,
)
    requires
        align1 > 0,
        align2 > 0,
    ensures
        ({
            let base = b.base as int;
            let start1 = block_start(base, b.cursor as int, align1 as int);
            let cursor1 = cursor_after(base, b.cursor as int, size1 as int, align1 as int);
            let start2 = block_start(base, cursor1, align2 as int);
            let cursor2 = cursor_after(base, cursor1, size2 as int, align2 as int);
            &&& start1 % (align1 as int) == 0 && start2 % (align2 as int) == 0
            &&& base + b.cursor <= start1
            &&& start1 + size1 <= start2
            &&& start2 + size2 == base + cursor2
            &&& b.cursor <= cursor1 <= cursor2
        }),
{
    let base = b.base as int;
    lemma_round_up(base + b.cursor, align1 as int);
    let cursor1 = cursor_after(base, b.cursor as int, size1 as int, align1 as int);
    lemma_round_up(base + cursor1, align2 as int);
}

} // verus!
