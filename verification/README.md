# tg_rcore_tutorial

The decision-making core of the graphical rCore tutorial kernels, written in
Verus and proved against its contracts.

- `banker` — the mathematics of the banker's algorithm: safe orders, the greedy
  search, and the conservation of units.
- `deadlock` — the per-process deadlock detector of chapter eight: the mutex and
  semaphore matrices, the safety check, and request / grant / release.
- `canvas` — a `BGRA8888` frame buffer and the integer convex-polygon filler.
- `tangram` — the seven-piece tangram of chapter one: the cut, the colour themes,
  the layout, one frame of drawing, the animation clock, decimal printing and the
  busy-wait arithmetic; the pieces provably tile the square.
- `input` — evdev key codes, the UART escape-sequence decoder and the VirtIO key
  filter.
- `gpu` — frame-buffer bookkeeping, the static DMA pool, DMA layouts and the user
  mapping of the frame buffer.
- `heap` — the bump allocator behind the game's global allocator.
- `elf` — reading an ELF image (through xmas-elf), which images the loader
  accepts and where their segments land.

`app/` holds the glue that touches hardware or kernel-wide state: the VirtIO
devices, the UART, the console, the timer, the global allocator, the tangram loop
and the mapping of
segments and stacks into an address space.
