//! Frame-buffer bookkeeping of the VirtIO-GPU driver: what the device reported,
//! the frame-buffer information handed to user programs, the static DMA pool of
//! the heap-less chapter three, the DMA page layout of the chapters with a heap,
//! and where the frame buffer lands in a user address space.
use vstd::prelude::*;

verus! {

/// Bits of a 4 KiB page.
pub const PAGE_BITS: usize = 12;

/// Bytes of a page.
pub const PAGE_SIZE: usize = 4096;

/// Frame-buffer information as the `framebuffer_info` system call fills it in for
/// a user program: where the frame buffer is in the program's address space, its
/// length in bytes and the resolution.  Pixels are `BGRA8888`.
#[derive(Clone, Copy, Debug, Default, PartialEq, Eq, Structural)]
pub struct FbInfo {
    /// Virtual address of the frame buffer in the user address space.
    pub ptr: usize,
    /// Length in bytes (`width * height * 4`).
    pub len: usize,
    /// Width in pixels.
    pub width: u32,
    /// Height in pixels.
    pub height: u32,
}

impl FbInfo {
    /// Bytes per pixel (`BGRA8888`).
    pub const BPP: usize = 4;
}

/// What the GPU reported when its frame buffer was set up: physical address,
/// length and resolution.  All zero until the device is initialised.
#[derive(Clone, Copy, Debug, PartialEq, Eq, Structural)]
pub struct GpuFrame {
    /// Physical address of the frame buffer (page aligned).
    pub paddr: usize,
    /// Length in bytes.
    pub len: usize,
    /// Width in pixels.
    pub width: u32,
    /// Height in pixels.
    pub height: u32,
}

impl GpuFrame {
    /// Nothing reported yet.
    pub fn empty() -> (r: GpuFrame)
        ensures
            r.paddr == 0 && r.len == 0 && r.width == 0 && r.height == 0,
    {
        GpuFrame { paddr: 0, len: 0, width: 0, height: 0 }
    }

    /// Records what the device reported.
    pub fn record(paddr: usize, len: usize, width: u32, height: u32) -> (r: GpuFrame)
        ensures
            r.paddr == paddr && r.len == len && r.width == width && r.height == height,
    {
        GpuFrame { paddr, len, width, height }
    }
}

/// Physical address of the frame buffer (page aligned).
pub fn fb_paddr(frame: &GpuFrame) -> (r: usize)
    ensures
        r == frame.paddr,
{
    frame.paddr
}

/// Length of the frame buffer in bytes (`width * height * 4`).
pub fn fb_len(frame: &GpuFrame) -> (r: usize)
    ensures
        r == frame.len,
{
    frame.len
}

/// Screen width in pixels.
pub fn fb_width(frame: &GpuFrame) -> (r: u32)
    ensures
        r == frame.width,
{
    frame.width
}

/// Screen height in pixels.
pub fn fb_height(frame: &GpuFrame) -> (r: u32)
    ensures
        r == frame.height,
{
    frame.height
}

/// First physical address of the static DMA pool (8 MiB into RAM, above the kernel
/// image and the user programs).
pub const DMA_BASE: usize = 0x8080_0000;

/// Size of the static DMA pool (6 MiB).
pub const DMA_SIZE: usize = 0x60_0000;

/// The DMA allocator of the chapter without a kernel heap: pages are handed out
/// from a fixed physical pool by a cursor that only moves forward; nothing is
/// ever given back.
pub struct VirtioHal {
    /// The next physical address to hand out.
    pub cursor: usize,
}

impl VirtioHal {
    /// The cursor is page aligned and inside the pool.
    pub open spec fn wf(&self) -> bool {
        &&& DMA_BASE <= self.cursor <= DMA_BASE + DMA_SIZE
        &&& self.cursor % PAGE_SIZE == 0
    }

    /// An untouched pool.
    pub fn new() -> (r: VirtioHal)
        ensures
            r.wf(),
            r.cursor == DMA_BASE,
    {
        VirtioHal { cursor: DMA_BASE }
    }

    /// Whether `pages` more pages fit in the pool, the byte count `pages << 12`
    /// taken in `usize` as the shift computes it.
    pub open spec fn fits(&self, pages: usize) -> bool {
        self.cursor + (pages << PAGE_BITS) <= DMA_BASE + DMA_SIZE
    }

    /// Whether `pages` more pages fit in the pool.
    pub fn can_alloc(&self, pages: usize) -> (r: bool)
        requires
            self.wf(),
        ensures
            r == self.fits(pages),
    {
        let bytes = pages << PAGE_BITS;
        bytes <= DMA_BASE + DMA_SIZE - self.cursor
    }

    /// Hands out `pages` contiguous pages (the caller zeroes them) and returns
    /// their physical address.
    pub fn dma_alloc(&mut self, pages: usize) -> (paddr: usize)
        requires
            old(self).wf(),
            old(self).fits(pages),
        ensures
            final(self).wf(),
            paddr == old(self).cursor,
            final(self).cursor == old(self).cursor + (pages << PAGE_BITS),
            paddr % PAGE_SIZE == 0,
            DMA_BASE <= paddr,
            paddr + (pages << PAGE_BITS) <= DMA_BASE + DMA_SIZE,
    {
        let bytes = pages << PAGE_BITS;
        let paddr = self.cursor;
        self.cursor = self.cursor + bytes;
        proof {
            assert(bytes % 4096 == 0) by (bit_vector)
                requires
                    bytes == pages << 12usize,
            ;
            vstd::arithmetic::div_mod::lemma_fundamental_div_mod(bytes as int, 4096);
            vstd::arithmetic::div_mod::lemma_mod_multiples_vanish(bytes as int / 4096, paddr as int, 4096);
        }
        paddr
    }

    /// Giving pages back: the pool never takes them back.
    pub fn dma_dealloc(&self, paddr: usize, pages: usize) -> (r: i32)
        ensures
            r == 0,
    {
        0
    }
}

/// Two allocations in a row hand out disjoint, page-aligned blocks: the second
/// starts where the first ends.
pub proof fn lemma_dma_allocations_disjoint(h: VirtioHal, first: usize, second: usize)
    requires
        h.wf(),
        h.fits(first),
        (VirtioHal { cursor: (h.cursor + (first << PAGE_BITS)) as usize }).fits(second),
    ensures
        ({
            let h1 = VirtioHal { cursor: (h.cursor + (first << PAGE_BITS)) as usize };
            &&& h1.wf()
            &&& h.cursor + (first << PAGE_BITS) == h1.cursor
            &&& h1.cursor + (second << PAGE_BITS) <= DMA_BASE + DMA_SIZE
            &&& h.cursor % PAGE_SIZE == 0 && h1.cursor % PAGE_SIZE == 0
        }),
{
    let bytes = first << PAGE_BITS;
    assert(bytes % 4096 == 0) by (bit_vector)
        requires
            bytes == first << 12usize,
    ;
    vstd::arithmetic::div_mod::lemma_fundamental_div_mod(bytes as int, 4096);
    vstd::arithmetic::div_mod::lemma_mod_multiples_vanish(bytes as int / 4096, h.cursor as int, 4096);
}

/// Size and alignment of the heap block that backs `pages` DMA pages.
pub fn dma_layout(pages: usize) -> (r: (usize, usize))
    ensures
        r.0 == pages << PAGE_BITS,
        r.1 == PAGE_SIZE,
{
    let align: usize = 1 << PAGE_BITS;
    assert(align == 4096) by (bit_vector)
        requires
            align == 1usize << 12usize,
    ;
    (pages << PAGE_BITS, align)
}

/// Fixed user virtual address of the frame buffer in the chapters with paging.
pub const FB_BASE: usize = 0x4000_0000;

/// The pages that map the frame buffer into a user address space: virtual page
/// numbers `vpn_start..vpn_end`, backed by physical pages from `ppn` on.
#[derive(Clone, Copy, Debug, PartialEq, Eq, Structural)]
pub struct FbMapping {
    /// First virtual page.
    pub vpn_start: usize,
    /// One past the last virtual page.
    pub vpn_end: usize,
    /// First physical page.
    pub ppn: usize,
}

/// Where the frame buffer of `len` bytes at physical address `paddr` lands in a user
/// address space: at `0x4000_0000`, on as many whole pages as the buffer needs.
pub fn framebuffer_mapping(paddr: usize, len: usize) -> (r: FbMapping)
    requires
        len + PAGE_SIZE - 1 <= usize::MAX,
    ensures
        r.vpn_start == FB_BASE / PAGE_SIZE,
        r.vpn_end == r.vpn_start + (len + PAGE_SIZE - 1) / (PAGE_SIZE as int),
        r.ppn == paddr / PAGE_SIZE,
        (r.vpn_end - r.vpn_start) * PAGE_SIZE >= len,
        (r.vpn_end - r.vpn_start) * PAGE_SIZE < len + PAGE_SIZE,
{
    let rounded = len + (PAGE_SIZE - 1);
    let pages = rounded >> PAGE_BITS;
    let vpn_start = FB_BASE >> PAGE_BITS;
    let ppn = paddr >> PAGE_BITS;
    assert(pages == rounded / 4096) by (bit_vector)
        requires
            pages == rounded >> 12usize,
    ;
    assert(ppn == paddr / 4096) by (bit_vector)
        requires
            ppn == paddr >> 12usize,
    ;
    assert(vpn_start == 0x4_0000) by (bit_vector)
        requires
            vpn_start == 0x4000_0000usize >> 12usize,
    ;
    FbMapping { vpn_start, vpn_end: vpn_start + pages, ppn }
}

} // verus!
