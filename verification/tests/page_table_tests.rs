use hypersieve::allocator::{heap_order_of, Heap};
use hypersieve::guest_table::{
    GuestPageTable, MapError, PageEntry, Table, PTE_R, PTE_U, PTE_V, PTE_W, PTE_X,
};
use hypersieve::memory::Memory;

fn heap_over(start: usize, size: usize) -> Heap {
    let mut heap = Heap::empty();
    assert!(heap_order_of(size).is_some());
    heap.init(start, start + size);
    heap
}

/// Walks the four levels of the table at `root` for `gpa`, as the hardware
/// does; the leaf entry, or `None` at the first invalid entry.
fn walk(mem: &Memory, root: u64, gpa: u64) -> Option<u64> {
    let mut table = Table { base: root };
    let mut level = 3;
    loop {
        let entry = PageEntry(mem.read_u64(table.entry_by_addr(gpa, level)));
        if !entry.is_valid() {
            return None;
        }
        if level == 0 {
            return Some(entry.0);
        }
        table = Table { base: entry.paddr() };
        level -= 1;
    }
}

#[test]
fn page_entry_keeps_the_page_number_and_flags() {
    let entry = PageEntry::new(0x8000_1234, PTE_V | PTE_R);
    assert_eq!(entry.0, 0x2000_0403);
    assert_eq!(entry.paddr(), 0x8000_1000);
    assert!(entry.is_valid());
    assert!(!PageEntry(0).is_valid());
    assert!(!PageEntry::new(0x8000_0000, PTE_R | PTE_W).is_valid());
}

#[test]
fn page_entry_round_trip_on_page_addresses() {
    for paddr in [0u64, 0x1000, 0x8020_0000, 0x00ff_ffff_ffff_f000] {
        let entry = PageEntry::new(paddr, PTE_V);
        assert_eq!(entry.paddr(), paddr);
        assert_eq!(entry.0 & 0x3ff, PTE_V);
    }
}

#[test]
fn entry_by_addr_picks_nine_bits_per_level() {
    let table = Table { base: 0x1000 };
    assert_eq!(table.entry_by_addr(0x8000_0000, 2), 0x1000 + 8 * 2);
    assert_eq!(table.entry_by_addr(0x8000_0000, 3), 0x1000);
    assert_eq!(table.entry_by_addr(0x8000_0000, 1), 0x1000);
    assert_eq!(table.entry_by_addr(0x0020_3000, 0), 0x1000 + 8 * 3);
    assert_eq!(table.entry_by_addr(0x0020_3000, 1), 0x1000 + 8 * 1);
    assert_eq!(table.entry_by_addr(0xffff_ffff_ffff_ffff, 0), 0x1000 + 8 * 511);
}

#[test]
fn hgatp_holds_the_mode_and_the_root_page() {
    assert_eq!(GuestPageTable::empty().table, 0);
    assert_eq!(GuestPageTable::empty().hgatp(), 9u64 << 60);
    let table = GuestPageTable { table: 0x8020_0000 };
    assert_eq!(table.hgatp(), (9u64 << 60) | 0x80200);
}

#[test]
fn table_allocate_hands_out_a_zeroed_page() {
    let mut heap = heap_over(0x10000, 0x10000);
    let mut mem = Memory::new();
    mem.write_u64(0x10ff8, u64::MAX);
    let table = Table::allocate(&mut heap, &mut mem).unwrap();
    assert_eq!(table.base, 0x10000);
    assert_eq!(mem.read_u64(0x10ff8), 0);
}

#[test]
fn map_then_walk_finds_the_host_page() {
    let mut heap = heap_over(0x10000, 0x10000);
    let mut mem = Memory::new();
    let table = GuestPageTable::new(&mut heap, &mut mem).unwrap();
    assert_eq!(table.table, 0x10000);
    assert_eq!(walk(&mem, table.table, 0x8000_0000), None);
    assert_eq!(
        table.map(&mut heap, &mut mem, 0x8000_0000, 0x9000_0000, PTE_R | PTE_W | PTE_X),
        Ok(())
    );
    let leaf = walk(&mem, table.table, 0x8000_0000).unwrap();
    assert_eq!(leaf, PageEntry::new(0x9000_0000, PTE_R | PTE_W | PTE_X | PTE_V | PTE_U).0);
    assert_eq!(leaf, 0x2400_001f);
    // The page offset does not matter.
    assert_eq!(walk(&mem, table.table, 0x8000_0abc), Some(leaf));
    // Another page is not mapped.
    assert_eq!(walk(&mem, table.table, 0x8000_1000), None);
}

#[test]
fn map_reuses_the_tables_of_a_neighbour_page() {
    let mut heap = heap_over(0x10000, 0x10000);
    let mut mem = Memory::new();
    let table = GuestPageTable::new(&mut heap, &mut mem).unwrap();
    assert_eq!(table.map(&mut heap, &mut mem, 0x8000_0000, 0x9000_0000, PTE_R), Ok(()));
    let free_before = heap.free_list.clone();
    assert_eq!(table.map(&mut heap, &mut mem, 0x8000_1000, 0x9000_5000, PTE_W), Ok(()));
    assert_eq!(heap.free_list, free_before);
    assert_eq!(
        walk(&mem, table.table, 0x8000_1000),
        Some(PageEntry::new(0x9000_5000, PTE_W | PTE_V | PTE_U).0)
    );
    assert_eq!(
        walk(&mem, table.table, 0x8000_0000),
        Some(PageEntry::new(0x9000_0000, PTE_R | PTE_V | PTE_U).0)
    );
}

#[test]
fn map_reports_an_exhausted_heap() {
    let mut heap = heap_over(0x10000, 0x2000);
    let mut mem = Memory::new();
    let table = GuestPageTable::new(&mut heap, &mut mem).unwrap();
    assert_eq!(table.table, 0x10000);
    assert!(GuestPageTable::new(&mut heap, &mut mem).is_none());
    assert_eq!(
        table.map(&mut heap, &mut mem, 0x8000_0000, 0x9000_0000, PTE_R),
        Err(MapError::OutOfMemory)
    );
    assert_eq!(walk(&mem, table.table, 0x8000_0000), None);
}

#[test]
fn map_keeps_a_page_mapped_under_another_root_entry() {
    let mut heap = heap_over(0x10000, 0x10000);
    let mut mem = Memory::new();
    let table = GuestPageTable::new(&mut heap, &mut mem).unwrap();
    assert_eq!(table.map(&mut heap, &mut mem, 0x8000_0000, 0x9000_0000, PTE_R), Ok(()));
    let first = walk(&mem, table.table, 0x8000_0000);
    assert_eq!(table.map(&mut heap, &mut mem, 0x100_0000_0000, 0xa000_0000, PTE_X), Ok(()));
    assert_eq!(walk(&mem, table.table, 0x8000_0000), first);
    assert_eq!(
        walk(&mem, table.table, 0x100_0000_0000),
        Some(PageEntry::new(0xa000_0000, PTE_X | PTE_V | PTE_U).0)
    );
}

#[test]
fn map_links_new_tables_with_the_valid_bit_alone() {
    let mut heap = heap_over(0x10000, 0x10000);
    let mut mem = Memory::new();
    let table = GuestPageTable::new(&mut heap, &mut mem).unwrap();
    let gpa = 0x8000_0000u64;
    assert_eq!(table.map(&mut heap, &mut mem, gpa, 0x9000_0000, PTE_R | PTE_W), Ok(()));
    let mut t = Table { base: table.table };
    for level in [3usize, 2, 1] {
        let entry = PageEntry(mem.read_u64(t.entry_by_addr(gpa, level)));
        // A link: valid, and neither readable, writable nor executable.
        assert_eq!(entry.0 & 0x3ff, PTE_V);
        let next = entry.paddr();
        assert_eq!(next % 4096, 0);
        // The new table reads zero but for the entry on the walk.
        let keep = Table { base: next }.entry_by_addr(gpa, level - 1);
        let mut a = next;
        while a < next + 4096 {
            if a != keep {
                assert_eq!(mem.read_u64(a), 0);
            }
            a += 8;
        }
        t = Table { base: next };
    }
}
