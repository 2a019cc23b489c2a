//! Boot metadata handed from the boot stage to the kernel.

use vstd::prelude::*;

verus! {

/// Physical memory layout discovered at boot.
pub struct FrameRange {
    /// Lowest physical address reported by the firmware memory map.
    pub ram_start: u64,
    /// Highest end address of conventional (usable) RAM.
    pub ram_end: u64,
    /// Total number of bytes of conventional RAM.
    pub total_conventional_bytes: u64,
    /// First address of the kernel heap; `None` when no conventional region
    /// can hold it.
    pub heap_start: Option<u64>,
    /// End of the kernel heap.
    pub heap_end: u64,
}

/// Linear framebuffer description obtained from the graphics output protocol.
pub struct FrameBufferInfo {
    /// Physical base address of the framebuffer.
    pub base_address: u64,
    /// Width of the screen in pixels.
    pub width: u32,
    /// Height of the screen in pixels.
    pub height: u32,
}

/// Everything the kernel learns from the boot stage.
pub struct BootInfo {
    /// Size of the kernel image file.
    pub kernel_file_size: u64,
    /// Size of the kernel once loaded in RAM.
    pub kernel_size_ram: u64,
    /// Physical memory layout.
    pub fr: FrameRange,
    /// Framebuffer description.
    pub fbi: FrameBufferInfo,
}

} // verus!
