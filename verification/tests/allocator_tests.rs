use hypersieve::allocator::{
    alloc_pages, delete_buddy_from_linked_list, order_for, split_node, BuddyAllocator,
    heap_order_of, DeallocFault, Heap, FREE_LIST_LENGTH,
};
use hypersieve::memory::Memory;

fn heap_over(start: usize, size: usize) -> Heap {
    let mut heap = Heap::empty();
    assert!(heap_order_of(size).is_some());
    heap.init(start, start + size);
    heap
}

#[test]
fn empty_heap_has_no_free_block() {
    let heap = Heap::empty();
    assert_eq!(heap.free_list.len(), FREE_LIST_LENGTH);
    assert!(heap.free_list.iter().all(|&head| head == 0));
    assert_eq!(heap.base_addr, 0);
}

#[test]
fn init_puts_the_whole_region_on_one_list() {
    let heap = heap_over(0x1000, 0x10000);
    assert_eq!(heap.base_addr, 0x1000);
    for (i, head) in heap.free_list.iter().enumerate() {
        if i == 15 {
            assert_eq!(*head, 0x1000);
        } else {
            assert_eq!(*head, 0);
        }
    }
}

#[test]
fn heap_order_of_needs_a_power_of_two_below_the_last_list() {
    assert_eq!(heap_order_of(3000), None);
    assert_eq!(heap_order_of(0), None);
    assert_eq!(heap_order_of(1), None);
    assert_eq!(heap_order_of(2), Some(0));
    assert_eq!(heap_order_of(0x10000), Some(15));
    assert_eq!(heap_order_of(1usize << 30), Some(29));
    assert_eq!(heap_order_of(1usize << 31), None);
}

#[test]
fn init_puts_a_small_region_on_the_first_list() {
    let mut small = Heap::empty();
    small.init(0x40, 0x42);
    assert_eq!(small.free_list[0], 0x40);
}

#[test]
fn order_for_rounds_up_to_a_power_of_two() {
    assert_eq!(order_for(0), 0);
    assert_eq!(order_for(1), 0);
    assert_eq!(order_for(2), 1);
    assert_eq!(order_for(3), 2);
    assert_eq!(order_for(8), 3);
    assert_eq!(order_for(9), 4);
    assert_eq!(order_for(4096), 12);
    assert_eq!(order_for(4097), 13);
    assert_eq!(order_for(usize::MAX), usize::BITS as usize);
}

#[test]
fn split_node_gives_both_halves() {
    assert_eq!(split_node(0x1000, 0x800), (0x1000, 0x1800));
    assert_eq!(split_node(0, 8), (0, 8));
}

#[test]
fn allocate_splits_the_first_larger_block() {
    let mut heap = heap_over(0x1000, 0x10000);
    let mut mem = Memory::new();
    assert_eq!(heap.allocate(&mut mem, 1), 0x1000);
    assert_eq!(heap.free_list[15], 0);
    for j in 3..15 {
        assert_eq!(heap.free_list[j], 0x1000 + (1usize << j));
    }
    for j in 0..3 {
        assert_eq!(heap.free_list[j], 0);
    }
    // The buddy of order 3 is handed out next, then its list is empty.
    assert_eq!(heap.allocate(&mut mem, 8), 0x1008);
    assert_eq!(heap.free_list[3], 0);
    assert_eq!(heap.allocate(&mut mem, 16), 0x1010);
    assert_eq!(heap.free_list[4], 0);
    assert_eq!(heap.allocate(&mut mem, 5000), 0x3000);
    assert_eq!(heap.free_list[13], 0);
}

#[test]
fn allocate_takes_the_next_block_of_a_list() {
    let mut heap = heap_over(0x1000, 0x10);
    let mut mem = Memory::new();
    // The free block at 0x1000 links to a block at 0x2000.
    mem.write_u64(0x1000, 0x2000);
    assert_eq!(heap.allocate(&mut mem, 8), 0x1000);
    assert_eq!(heap.free_list[3], 0x2000);
}

#[test]
fn has_block_reports_an_exhausted_heap() {
    let mut heap = heap_over(0x1000, 0x10);
    let mut mem = Memory::new();
    assert!(heap.has_block(8));
    assert_eq!(heap.allocate(&mut mem, 8), 0x1000);
    assert!(!heap.has_block(8));
    assert!(!heap.has_block(1usize << 40));
    assert!(heap.free_list.iter().all(|&head| head == 0));
}

#[test]
fn alloc_pages_hands_out_zeroed_pages() {
    let mut heap = heap_over(0x10000, 0x10000);
    let mut mem = Memory::new();
    mem.write_u8(0x10010, 0xab);
    mem.write_u8(0x10fff, 0xcd);
    assert_eq!(alloc_pages(&mut heap, &mut mem, 1), Some(0x10000));
    assert_eq!(mem.read_u8(0x10010), 0);
    assert_eq!(mem.read_u8(0x10fff), 0);
    assert_eq!(heap.free_list[12], 0x11000);
    assert_eq!(heap.free_list[13], 0x12000);
    assert_eq!(heap.free_list[14], 0x14000);
    assert_eq!(heap.free_list[15], 0);
    // Two pages round up to a block of order 13.
    assert_eq!(alloc_pages(&mut heap, &mut mem, 4097), Some(0x12000));
}

#[test]
fn alloc_pages_reports_an_exhausted_heap() {
    let mut heap = heap_over(0x10000, 0x1000);
    let mut mem = Memory::new();
    assert_eq!(alloc_pages(&mut heap, &mut mem, 4096), None);
    assert_eq!(heap.free_list[11], 0x10000);
}

#[test]
fn delete_buddy_unlinks_by_byte_links() {
    let mut mem = Memory::new();
    mem.write_u8(0x10, 0x20);
    mem.write_u8(0x20, 0x30);
    mem.write_u8(0x30, 0x00);
    assert_eq!(delete_buddy_from_linked_list(&mut mem, 0x10, 0x20), Ok(()));
    assert_eq!(mem.read_u8(0x10), 0x20);
    assert_eq!(mem.read_u8(0x20), 0x00);
    assert_eq!(mem.read_u8(0x30), 0x00);
}

#[test]
fn delete_buddy_fails_when_the_list_ends_first() {
    let mut mem = Memory::new();
    mem.write_u8(0x10, 0x20);
    mem.write_u8(0x20, 0x30);
    assert_eq!(delete_buddy_from_linked_list(&mut mem, 0x10, 0x40), Err(()));
    assert_eq!(mem.read_u8(0x10), 0x20);
    assert_eq!(mem.read_u8(0x20), 0x30);
    assert_eq!(delete_buddy_from_linked_list(&mut mem, 0, 0x40), Err(()));
}

#[test]
fn dealloc_merges_the_buddies_back() {
    let mut allocator = BuddyAllocator { heap: heap_over(0x1000, 0x10000) };
    let mut mem = Memory::new();
    assert_eq!(allocator.allocate(&mut mem, 8), 0x1000);
    assert_eq!(allocator.dealloc(&mut mem, 0x1000, 0x1000, 8), Ok(()));
    for (i, head) in allocator.heap.free_list.iter().enumerate() {
        if i == 15 {
            assert_eq!(*head, 0x1000);
        } else {
            assert_eq!(*head, 0);
        }
    }
}

#[test]
fn dealloc_puts_a_block_on_an_empty_list() {
    let mut allocator = BuddyAllocator { heap: Heap::empty() };
    let mut mem = Memory::new();
    assert_eq!(allocator.dealloc(&mut mem, 0x1000, 0x1040, 20), Ok(()));
    assert_eq!(allocator.heap.free_list[5], 0x1040);
    // A size below 8 is given back as an 8-byte block.
    assert_eq!(allocator.dealloc(&mut mem, 0x1000, 0x1100, 1), Ok(()));
    assert_eq!(allocator.heap.free_list[3], 0x1100);
}

#[test]
fn dealloc_stops_at_the_last_list() {
    let mut allocator = BuddyAllocator { heap: Heap::empty() };
    let mut mem = Memory::new();
    assert_eq!(
        allocator.dealloc(&mut mem, 0x1000, 0x1000, 1usize << 31),
        Err(DeallocFault::ListIndexOutOfRange)
    );
}

#[test]
fn dealloc_stops_at_a_buddy_beyond_the_address_space() {
    let mut allocator = BuddyAllocator { heap: Heap::empty() };
    let mut mem = Memory::new();
    let heap_start = usize::MAX - 10;
    allocator.heap.free_list[4] = usize::MAX - 1;
    assert_eq!(
        allocator.dealloc(&mut mem, heap_start, heap_start, 16),
        Err(DeallocFault::AddressOverflow)
    );
    assert_eq!(allocator.heap.free_list[4], usize::MAX - 1);
}
