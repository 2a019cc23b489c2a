# skidbladnir

The verified core of the Skidbladnir kernel, written in Verus.

- `src/buddy.rs` — the buddy page allocator: free lists per order, allocation
  by splitting, deallocation with coalescing, and the proofs of what these do
  to the set of free bytes.
- `src/free_list.rs` — a free list kept in a fixed array, so the allocator
  needs no memory besides its own.
- `src/locked.rs` — the allocator behind a `spin` lock, and the order of the
  block that serves a memory layout.
- `src/boot.rs`, `src/boot_info.rs` — the boot information and the scan of
  the firmware memory map.
- `src/video.rs` — framebuffer pixel addressing.
- `src/console.rs` — the console state.
- `app/main.rs` — the UEFI boot handshake, framebuffer stores, the
  `GlobalAlloc` glue and the kernel entry point.
