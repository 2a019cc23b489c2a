//! Verified core of the Skidbladnir kernel: the buddy page allocator and
//! its locked, shared form, the boot-time scan of the firmware memory map,
//! framebuffer pixel addressing, and the console state.

pub mod boot;
pub mod boot_info;
pub mod buddy;
pub mod console;
pub mod free_list;
pub mod locked;
pub mod video;
