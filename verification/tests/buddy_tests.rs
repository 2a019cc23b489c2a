use skidbladnir::boot_info::{BootInfo, FrameBufferInfo, FrameRange};
use skidbladnir::buddy::{BuddyAllocator, FreeNode, MAX_ORDER, PAGE_SIZE};
use skidbladnir::locked::{layout_order, LockedBuddyAllocator};

const BASE: u64 = 0x10_0000;
const HEAP: u64 = 0x40_0000;

fn boot_info(heap_start: u64) -> BootInfo {
    BootInfo {
        kernel_file_size: 0,
        kernel_size_ram: 0,
        fr: FrameRange {
            ram_start: 0,
            ram_end: heap_start + HEAP,
            total_conventional_bytes: HEAP,
            heap_start: Some(heap_start),
            heap_end: heap_start + HEAP,
        },
        fbi: FrameBufferInfo { base_address: 0, width: 0, height: 0 },
    }
}

fn ready() -> BuddyAllocator {
    let mut a = BuddyAllocator::new();
    a.init(&boot_info(BASE));
    a
}

#[test]
fn constants_match_the_heap_layout() {
    assert_eq!(MAX_ORDER, 11);
    assert_eq!(PAGE_SIZE, 4096);
    assert_eq!((1u64 << (MAX_ORDER - 1)) * PAGE_SIZE as u64, HEAP);
}

#[test]
fn new_allocator_has_no_memory() {
    let mut a = BuddyAllocator::new();
    for order in 0..MAX_ORDER {
        assert_eq!(a.allocate(order), None);
    }
}

#[test]
fn order_at_or_above_max_is_refused() {
    let mut a = ready();
    assert_eq!(a.allocate(MAX_ORDER), None);
    assert_eq!(a.allocate(MAX_ORDER + 5), None);
    // The refusal leaves the heap whole.
    assert_eq!(a.allocate(MAX_ORDER - 1), Some(BASE));
}

#[test]
fn whole_heap_after_init() {
    let mut a = ready();
    assert_eq!(a.allocate(MAX_ORDER - 1), Some(BASE));
    assert_eq!(a.allocate(0), None);
}

#[test]
fn smallest_allocation_splits_from_the_top() {
    let mut a = ready();
    assert_eq!(a.allocate(0), Some(BASE));
    // Every split left the upper half free at its order.
    assert_eq!(a.allocate(0), Some(BASE + 0x1000));
    assert_eq!(a.allocate(1), Some(BASE + 0x2000));
    assert_eq!(a.allocate(2), Some(BASE + 0x4000));
    assert_eq!(a.allocate(9), Some(BASE + 0x20_0000));
    assert_eq!(a.allocate(9), None);
}

#[test]
fn allocation_takes_the_smallest_fitting_order() {
    let mut a = ready();
    assert_eq!(a.allocate(3), Some(BASE));
    // Order 3 now has the buddy at BASE + 8 pages; order 0 is empty and is
    // served by splitting that order-3 block.
    assert_eq!(a.allocate(0), Some(BASE + 0x8000));
    assert_eq!(a.allocate(0), Some(BASE + 0x9000));
}

#[test]
fn allocated_blocks_are_aligned_and_disjoint() {
    let mut a = ready();
    let mut blocks: Vec<(u64, usize)> = Vec::new();
    for order in [0usize, 3, 1, 0, 5, 2, 2, 7, 0] {
        let addr = a.allocate(order).expect("heap has room");
        let size = (1u64 << order) * PAGE_SIZE as u64;
        assert_eq!((addr - BASE) % size, 0);
        assert!(addr + size <= BASE + HEAP);
        for &(other, other_order) in &blocks {
            let other_size = (1u64 << other_order) * PAGE_SIZE as u64;
            assert!(addr + size <= other || other + other_size <= addr);
        }
        blocks.push((addr, order));
    }
}

#[test]
fn alloc_then_dealloc_restores_the_heap() {
    let mut a = ready();
    let addr = a.allocate(0).unwrap();
    a.dealloc(addr, 0);
    // All buddies merged back into the single top block.
    assert_eq!(a.allocate(MAX_ORDER - 1), Some(BASE));
}

#[test]
fn dealloc_merges_with_free_buddies_only() {
    let mut a = ready();
    let x = a.allocate(0).unwrap();
    let y = a.allocate(0).unwrap();
    assert_eq!((x, y), (BASE, BASE + 0x1000));
    // y's buddy x is still in use: y stays an order-0 block.
    a.dealloc(y, 0);
    assert_eq!(a.allocate(0), Some(BASE + 0x1000));
    a.dealloc(BASE + 0x1000, 0);
    // Freeing x now merges x with y and all the way up.
    a.dealloc(x, 0);
    assert_eq!(a.allocate(MAX_ORDER - 1), Some(BASE));
}

#[test]
fn freed_block_is_reused_first() {
    let mut a = ready();
    let _x = a.allocate(2).unwrap();
    let y = a.allocate(2).unwrap();
    let _z = a.allocate(2).unwrap();
    a.dealloc(y, 2);
    assert_eq!(a.allocate(2), Some(y));
}

#[test]
fn dealloc_at_top_order_does_not_merge() {
    let mut a = ready();
    let top = a.allocate(MAX_ORDER - 1).unwrap();
    a.dealloc(top, MAX_ORDER - 1);
    assert_eq!(a.allocate(MAX_ORDER - 1), Some(BASE));
    assert_eq!(a.allocate(0), None);
}

#[test]
fn buddy_below_is_found_by_upper_half() {
    let mut a = ready();
    let lower = a.allocate(4).unwrap();
    let upper = a.allocate(4).unwrap();
    assert_eq!(upper, lower + 16 * 0x1000);
    a.dealloc(lower, 4);
    // Freeing the upper half finds its buddy below it and merges downwards.
    a.dealloc(upper, 4);
    assert_eq!(a.allocate(MAX_ORDER - 1), Some(BASE));
}

#[test]
fn heap_at_address_zero() {
    let mut a = BuddyAllocator::new();
    a.init(&boot_info(0));
    assert_eq!(a.allocate(0), Some(0));
    assert_eq!(a.allocate(10), None);
    assert_eq!(a.allocate(9), Some(0x20_0000));
}

#[test]
fn free_node_holds_the_next_address() {
    let n = FreeNode { next: Some(BASE) };
    assert_eq!(n.next, Some(BASE));
    let last = FreeNode { next: None };
    assert!(last.next.is_none());
}

#[test]
fn layout_order_rounds_up_to_pages_and_powers_of_two() {
    assert_eq!(layout_order(0, 1), 0);
    assert_eq!(layout_order(1, 1), 0);
    assert_eq!(layout_order(4096, 8), 0);
    assert_eq!(layout_order(4097, 8), 1);
    assert_eq!(layout_order(8192, 16), 1);
    assert_eq!(layout_order(8193, 16), 2);
    assert_eq!(layout_order(3 * 4096, 8), 2);
    assert_eq!(layout_order(5 * 4096, 8), 3);
    assert_eq!(layout_order(0x40_0000, 8), 10);
    assert_eq!(layout_order(0x40_0001, 8), 11);
}

#[test]
fn layout_order_uses_the_alignment_when_larger() {
    assert_eq!(layout_order(16, 4096), 0);
    assert_eq!(layout_order(16, 8192), 1);
    assert_eq!(layout_order(100, 0x10_0000), 8);
}

#[test]
fn locked_allocator_serves_after_init() {
    let locked = LockedBuddyAllocator::new();
    locked.init(&boot_info(BASE));
    let order = layout_order(100, 8);
    assert_eq!(locked.0.lock().allocate(order), Some(BASE));
    assert_eq!(locked.0.lock().allocate(order), Some(BASE + 0x1000));
}

#[test]
fn alloc_then_dealloc_restores_every_list() {
    let mut a = ready();
    let _kept = a.allocate(1).unwrap();
    let _kept2 = a.allocate(4).unwrap();
    let mut b = ready();
    let _ = b.allocate(1).unwrap();
    let _ = b.allocate(4).unwrap();
    let p = a.allocate(2).unwrap();
    a.dealloc(p, 2);
    for order in [0usize, 0, 3, 1, 2, 5, 9, 0] {
        assert_eq!(a.allocate(order), b.allocate(order));
    }
}
