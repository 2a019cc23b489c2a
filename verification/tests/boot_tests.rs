use skidbladnir::boot::{boot_info_from_memory_map, frame_range_from_memory_map, MemoryEntry, CONVENTIONAL, HEAP_PAGES};
use skidbladnir::boot_info::FrameBufferInfo;

const LOADER_DATA: u32 = 2;
const BOOT_SERVICES_CODE: u32 = 3;
const RUNTIME_SERVICES_DATA: u32 = 6;

fn entry(ty: u32, phys_start: u64, page_count: u64) -> MemoryEntry {
    MemoryEntry { ty, phys_start, page_count }
}

#[test]
fn empty_memory_map() {
    let fr = frame_range_from_memory_map(&[]);
    assert_eq!(fr.ram_start, u64::MAX);
    assert_eq!(fr.ram_end, 0);
    assert_eq!(fr.total_conventional_bytes, 0);
    assert_eq!(fr.heap_start, None);
    assert_eq!(fr.heap_end, 0);
}

#[test]
fn small_map_still_gives_its_figures() {
    let map = [
        entry(LOADER_DATA, 0x0, 1),
        entry(CONVENTIONAL, 0x5000, 3),
        entry(CONVENTIONAL, 0x1000, 2),
        entry(RUNTIME_SERVICES_DATA, 0x10000, 4),
    ];
    let fr = frame_range_from_memory_map(&map);
    assert_eq!(fr.ram_start, 0);
    assert_eq!(fr.ram_end, 0x8000);
    assert_eq!(fr.total_conventional_bytes, 20480);
    assert_eq!(fr.heap_end, 0x8000);
    assert_eq!(fr.heap_start, None);
}

#[test]
fn scan_of_a_typical_map() {
    let map = [
        entry(BOOT_SERVICES_CODE, 0x1000, 0x9f),
        entry(CONVENTIONAL, 0x10_0000, 0x700),
        entry(LOADER_DATA, 0x80_0000, 0x10),
        entry(CONVENTIONAL, 0x81_0000, 0x100),
        entry(BOOT_SERVICES_CODE, 0xF000_0000, 0x10),
    ];
    let fr = frame_range_from_memory_map(&map);
    assert_eq!(fr.ram_start, 0x1000);
    assert_eq!(fr.ram_end, 0x91_0000);
    assert_eq!(fr.total_conventional_bytes, (0x700 + 0x100) * 4096);
    assert_eq!(fr.heap_start, Some(0x10_0000));
    assert_eq!(fr.heap_end, 0x91_0000);
}

#[test]
fn highest_end_counts_conventional_memory_only() {
    let map = [
        entry(CONVENTIONAL, 0x20_0000, HEAP_PAGES),
        entry(LOADER_DATA, 0x100_0000, 0x100),
    ];
    let fr = frame_range_from_memory_map(&map);
    assert_eq!(fr.ram_start, 0x20_0000);
    assert_eq!(fr.ram_end, 0x60_0000);
    assert_eq!(fr.total_conventional_bytes, 0x40_0000);
}

#[test]
fn heap_needs_four_mebibytes_of_conventional_ram() {
    let map = [
        entry(CONVENTIONAL, 0x1000, HEAP_PAGES - 1),
        entry(LOADER_DATA, 0x100_0000, 0x1000),
    ];
    assert_eq!(frame_range_from_memory_map(&map).heap_start, None);
}

#[test]
fn region_at_address_zero_offers_its_second_page() {
    let map = [entry(CONVENTIONAL, 0, 2048)];
    let fr = frame_range_from_memory_map(&map);
    assert_eq!(fr.heap_start, Some(0x1000));
    assert_eq!(fr.ram_start, 0);
    let just_too_small = [entry(CONVENTIONAL, 0, HEAP_PAGES)];
    assert_eq!(frame_range_from_memory_map(&just_too_small).heap_start, None);
    let just_enough = [entry(CONVENTIONAL, 0, HEAP_PAGES + 1)];
    assert_eq!(frame_range_from_memory_map(&just_enough).heap_start, Some(0x1000));
}

#[test]
fn heap_takes_the_lowest_fitting_region() {
    let map = [
        entry(CONVENTIONAL, 0x800_0000, 0x4000),
        entry(CONVENTIONAL, 0x10_0000, 0x10),
        entry(CONVENTIONAL, 0x200_0000, HEAP_PAGES),
    ];
    assert_eq!(frame_range_from_memory_map(&map).heap_start, Some(0x200_0000));
}

#[test]
fn unsorted_map_gives_the_same_bounds() {
    let a = [
        entry(CONVENTIONAL, 0x50_0000, HEAP_PAGES),
        entry(CONVENTIONAL, 0x8000, 4),
        entry(CONVENTIONAL, 0x20_0000, 1),
    ];
    let b = [a[2], a[0], a[1]];
    let fa = frame_range_from_memory_map(&a);
    let fb = frame_range_from_memory_map(&b);
    assert_eq!(fa.ram_start, 0x8000);
    assert_eq!(fa.ram_end, 0x90_0000);
    assert_eq!(fa.total_conventional_bytes, (HEAP_PAGES + 5) * 4096);
    assert_eq!(fa.heap_start, Some(0x50_0000));
    assert_eq!(
        (fa.ram_start, fa.ram_end, fa.total_conventional_bytes, fa.heap_start, fa.heap_end),
        (fb.ram_start, fb.ram_end, fb.total_conventional_bytes, fb.heap_start, fb.heap_end)
    );
}

#[test]
fn boot_info_carries_the_framebuffer() {
    let map = [entry(CONVENTIONAL, 0x10_0000, 0x400)];
    let fbi = FrameBufferInfo { base_address: 0x8000_0000, width: 1024, height: 768 };
    let info = boot_info_from_memory_map(&map, fbi);
    assert_eq!(info.kernel_file_size, 0);
    assert_eq!(info.kernel_size_ram, 0);
    assert_eq!(info.fr.ram_start, 0x10_0000);
    assert_eq!(info.fr.ram_end, 0x50_0000);
    assert_eq!(info.fr.total_conventional_bytes, 0x40_0000);
    assert_eq!(info.fr.heap_start, Some(0x10_0000));
    assert_eq!(info.fbi.base_address, 0x8000_0000);
    assert_eq!(info.fbi.width, 1024);
    assert_eq!(info.fbi.height, 768);
}

#[test]
fn boot_info_without_heap_region() {
    let map = [entry(LOADER_DATA, 0x10_0000, 0x400)];
    let fbi = FrameBufferInfo { base_address: 0, width: 1, height: 1 };
    let info = boot_info_from_memory_map(&map, fbi);
    assert_eq!(info.fr.heap_start, None);
    assert_eq!(info.fr.ram_start, 0x10_0000);
    assert_eq!(info.fr.total_conventional_bytes, 0);
}
