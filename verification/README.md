# minikernel

The verified core of a small x86_64 kernel booted by Limine.

- `src/memory/phys.rs`: the physical page allocator, one bit per 4 KiB page. The
  bitmap layout is worked out from the bootloader's memory map, usable memory is
  marked free and the bitmap's own pages used; `alloc_page` hands out the lowest free
  page, `free_page` returns one.
- `src/memory/virt.rs`: the kernel's virtual address cursor, and the decisions of
  kernel page and heap allocation (which virtual page gets which physical page).
- `src/framebuffer/`: colors and pixel memory, PSF1/PSF2 font parsing and glyph
  drawing, and a text console that wraps lines and scrolls.
- `src/logging.rs`: the file name a log line shows.

`app/` holds what runs on the machine around it: the Limine requests, the page tables
(through the `x86_64` crate), the global locks, the heap allocator, the serial logger
and `kmain`.
