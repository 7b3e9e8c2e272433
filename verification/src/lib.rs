//! Verified core of the graphical rCore tutorial kernels: the banker's deadlock
//! detector of chapter eight, the tangram renderer of chapter one, keyboard
//! decoding, frame-buffer and DMA bookkeeping of the VirtIO-GPU driver, the
//! game's bump allocator, and the ELF loading plan.
use vstd::prelude::*;

pub mod banker;
pub mod canvas;
pub mod deadlock;
pub mod elf;
pub mod gpu;
pub mod heap;
pub mod input;
pub mod tangram;

