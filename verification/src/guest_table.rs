//! Guest-physical to host-physical translation: the G-stage page tables in
//! the Sv48x4 format.
//!
//! A table is 512 eight-byte entries, 4096 bytes, in [`Memory`]; an entry
//! holds the physical page number of the next table or of the mapped page
//! from bit 10 up, and its flags in the low ten bits.

use crate::allocator::{
    after_clean_alloc, after_clean_allocs, alloc_pages, block_bytes, block_size, blocks_fit, first_nonempty,
    page_round_up, request_order, Heap, FREE_LIST_LENGTH,
};
use crate::memory::{byte_of, lemma_store_word, store_word, word_of, Memory};
use vstd::prelude::*;

verus! {

/// The entry maps pages that can be read.
pub const PTE_R: u64 = 1 << 1;

/// The entry maps pages that can be written.
pub const PTE_W: u64 = 1 << 2;

/// The entry maps pages that can be executed.
pub const PTE_X: u64 = 1 << 3;

/// The entry is valid.
pub const PTE_V: u64 = 1 << 0;

/// The page is accessible in (virtual) user mode.
pub const PTE_U: u64 = 1 << 4;

/// Width of the page offset.
pub const PPN_SHIFT: u64 = 12;

/// Position of the physical page number in an entry.
pub const PPN_PTE_SHIFT: u64 = 10;

/// Size in bytes of a page table: 512 entries of 8 bytes.
pub const TABLE_SIZE: usize = 4096;

/// The value of the entry that maps `paddr` with `flags`.
pub open spec fn entry_value(paddr: u64, flags: u64) -> u64 {
    ((paddr >> 12) << 10) | flags
}

/// The physical address that entry value `e` names.
pub open spec fn entry_paddr(e: u64) -> u64 {
    (e >> 10) << 12
}

/// The entry value `e` is valid.
pub open spec fn entry_valid(e: u64) -> bool {
    e & PTE_V != 0
}

/// Index of the entry that translates `guest_paddr` in a table of `level`:
/// the 9 bits above the 12-bit page offset and the bits of the lower levels.
pub open spec fn entry_index(guest_paddr: u64, level: int) -> int {
    ((guest_paddr >> ((12 + 9 * level) as u64)) & 0x1ff) as int
}

/// One entry of a page table.
#[derive(Debug, Clone, Copy, PartialEq, Eq)]
pub struct PageEntry(pub u64);

impl PageEntry {
    /// The entry that maps the page at `paddr` (its offset dropped) with `flags`.
    pub fn new(paddr: u64, flags: u64) -> (r: PageEntry)
        ensures
            r.0 == entry_value(paddr, flags),
    {
        // Delete page offset.
        let ppn = paddr >> PPN_SHIFT;
        PageEntry((ppn << PPN_PTE_SHIFT) | flags)
    }

    /// The entry is valid.
    pub fn is_valid(&self) -> (r: bool)
        ensures
            r == entry_valid(self.0),
    {
        self.0 & PTE_V != 0
    }

    /// The physical address that the entry names.
    pub fn paddr(&self) -> (r: u64)
        ensures
            r == entry_paddr(self.0),
    {
        (self.0 >> PPN_PTE_SHIFT) << PPN_SHIFT
    }
}

/// An entry made by `PageEntry::new` gives back the page address, its low
/// 12 bits cleared, and is valid exactly when its flags hold `PTE_V`, as long
/// as the flags fit in the ten flag bits.
pub proof fn lemma_entry_round_trip(paddr: u64, flags: u64)
    requires
        flags < 1024,
    ensures
        entry_paddr(entry_value(paddr, flags)) == paddr & !0xfffu64,
        entry_valid(entry_value(paddr, flags)) == (flags & PTE_V != 0),
        entry_value(paddr, flags) & 0x3ff == flags,
{
    assert(((((paddr >> 12) << 10) | flags) >> 10) << 12 == paddr & !0xfffu64) by (bit_vector)
        requires
            flags < 1024,
    ;
    assert(PTE_V == 1) by (bit_vector);
    assert((((paddr >> 12) << 10) | flags) & 1 == flags & 1) by (bit_vector)
        requires
            flags < 1024,
    ;
    assert((((paddr >> 12) << 10) | flags) & 0x3ff == flags) by (bit_vector)
        requires
            flags < 1024,
    ;
}

/// A page table at a physical address.
#[derive(Debug, Clone, Copy, PartialEq, Eq)]
pub struct Table {
    pub base: u64,
}

impl Table {
    /// The address of the entry that translates `guest_paddr` at `level`.
    pub fn entry_by_addr(&self, guest_paddr: u64, level: usize) -> (r: u64)
        requires
            level <= 5,
            self.base + TABLE_SIZE <= u64::MAX,
        ensures
            r == self.base + 8 * entry_index(guest_paddr, level as int),
            0 <= entry_index(guest_paddr, level as int) < 512,
    {
        // Page entry contains a 12-bit offset that we shift, and it's also divided into blocks of 9 bits.
        // Each block is represented by the page table `level`.
        let index = (guest_paddr >> (12 + 9 * level as u64)) & 0x1ff;
        proof {
            let sh = (12 + 9 * level) as u64;
            assert((guest_paddr >> sh) & 0x1ff < 512) by (bit_vector);
        }
        self.base + 8 * index
    }
}

/// The entry word that translates `gpa` in the table at `t` of `level`.
pub open spec fn entry_at(m: Map<u64, u8>, t: int, gpa: u64, level: int) -> u64 {
    word_of(m, t + 8 * entry_index(gpa, level))
}

/// The leaf entry that translates `gpa`, walking down from the table at `t`
/// of `level`; `None` when an entry on the way is not valid.
pub open spec fn translate_from(m: Map<u64, u8>, t: int, gpa: u64, level: int) -> Option<u64>
    decreases level,
{
    let e = entry_at(m, t, gpa, level);
    if !entry_valid(e) {
        None
    } else if level <= 0 {
        Some(e)
    } else {
        translate_from(m, entry_paddr(e) as int, gpa, level - 1)
    }
}

/// The leaf entry that translates `gpa` in the four-level table at `root`.
pub open spec fn translate(m: Map<u64, u8>, root: u64, gpa: u64) -> Option<u64> {
    translate_from(m, root as int, gpa, 3)
}

/// The bytes of the table at `t`.
pub open spec fn table_bytes(t: int) -> Set<int> {
    Set::new(|x: int| t <= x < t + 4096)
}

/// The table at `t` is page aligned, lies in `used` and avoids `avoid`.
pub open spec fn good_table(t: int, used: Set<int>, avoid: Set<int>) -> bool {
    &&& 0 <= t
    &&& t % 4096 == 0
    &&& t + 4096 <= u64::MAX
    &&& forall|x: int| t <= x < t + 4096 ==> #[trigger] used.contains(x) && !avoid.contains(x)
}

/// Every table on the path that translates `gpa` from the table at `t` of
/// `level` is page aligned, lies in `used`, and overlaps no table above it.
pub open spec fn path_ok(
    m: Map<u64, u8>,
    used: Set<int>,
    t: int,
    gpa: u64,
    level: int,
    avoid: Set<int>,
) -> bool
    decreases level,
{
    &&& good_table(t, used, avoid)
    &&& level > 0 && entry_valid(entry_at(m, t, gpa, level)) ==> path_ok(
        m,
        used,
        entry_paddr(entry_at(m, t, gpa, level)) as int,
        gpa,
        level - 1,
        avoid.union(table_bytes(t)),
    )
}

/// Walking from the table at `t` of `level` towards `gpa` reaches the table
/// `target` at `target_level` through valid entries, in tables inside `s`.
pub open spec fn reaches(
    m: Map<u64, u8>,
    t: int,
    gpa: u64,
    level: int,
    target: int,
    target_level: int,
    s: Set<int>,
) -> bool
    decreases level - target_level,
{
    if level <= target_level {
        t == target
    } else {
        &&& forall|x: int| t <= x < t + 4096 ==> #[trigger] s.contains(x)
        &&& entry_valid(entry_at(m, t, gpa, level))
        &&& reaches(
            m,
            entry_paddr(entry_at(m, t, gpa, level)) as int,
            gpa,
            level - 1,
            target,
            target_level,
            s,
        )
    }
}

/// The byte at `x` lies in a table on the path that translates `gpa` from
/// the table at `t` of `level`.
pub open spec fn on_path(m: Map<u64, u8>, t: int, gpa: u64, level: int, x: int) -> bool
    decreases level,
{
    ||| t <= x < t + 4096
    ||| level > 0 && entry_valid(entry_at(m, t, gpa, level)) && on_path(
        m,
        entry_paddr(entry_at(m, t, gpa, level)) as int,
        gpa,
        level - 1,
        x,
    )
}

proof fn lemma_reaches_on_path(
    m: Map<u64, u8>,
    t: int,
    gpa: u64,
    level: int,
    target: int,
    target_level: int,
    s: Set<int>,
    x: int,
)
    requires
        0 <= target_level <= level,
        reaches(m, t, gpa, level, target, target_level, s),
        target <= x < target + 4096,
    ensures
        on_path(m, t, gpa, level, x),
    decreases level - target_level,
{
    if level > target_level {
        lemma_reaches_on_path(
            m,
            entry_paddr(entry_at(m, t, gpa, level)) as int,
            gpa,
            level - 1,
            target,
            target_level,
            s,
            x,
        );
    }
}

/// How many tables mapping `gpa` adds below the table at `t` of `level`: one
/// for each level below the first entry on the walk that is not valid.
pub open spec fn tables_missing(m: Map<u64, u8>, t: int, gpa: u64, level: int) -> nat
    decreases level,
{
    if level <= 0 {
        0
    } else if !entry_valid(entry_at(m, t, gpa, level)) {
        level as nat
    } else {
        tables_missing(m, entry_paddr(entry_at(m, t, gpa, level)) as int, gpa, level - 1)
    }
}

proof fn lemma_reaches_missing(
    m: Map<u64, u8>,
    t: int,
    gpa: u64,
    level: int,
    target: int,
    target_level: int,
    s: Set<int>,
)
    requires
        0 <= target_level <= level,
        reaches(m, t, gpa, level, target, target_level, s),
    ensures
        tables_missing(m, t, gpa, level) == tables_missing(m, target, gpa, target_level),
    decreases level - target_level,
{
    if level > target_level {
        lemma_reaches_missing(
            m,
            entry_paddr(entry_at(m, t, gpa, level)) as int,
            gpa,
            level - 1,
            target,
            target_level,
            s,
        );
    }
}

/// The address of the entry that mapping `gpa` writes into a table that is
/// there already: the first entry on the walk from the table at `t` of
/// `level` that is not valid, or the leaf entry.
pub open spec fn first_gap(m: Map<u64, u8>, t: int, gpa: u64, level: int) -> int
    decreases level,
{
    if level <= 0 || !entry_valid(entry_at(m, t, gpa, level)) {
        t + 8 * entry_index(gpa, level)
    } else {
        first_gap(m, entry_paddr(entry_at(m, t, gpa, level)) as int, gpa, level - 1)
    }
}

/// The level of the table that holds [`first_gap`].
pub open spec fn gap_level(m: Map<u64, u8>, t: int, gpa: u64, level: int) -> int
    decreases level,
{
    if level <= 0 || !entry_valid(entry_at(m, t, gpa, level)) {
        level
    } else {
        gap_level(m, entry_paddr(entry_at(m, t, gpa, level)) as int, gpa, level - 1)
    }
}

/// The walk towards `g` from the table at `t` of `level` reads the entry at
/// `a`.
pub open spec fn walk_reads(m: Map<u64, u8>, t: int, g: u64, level: int, a: int) -> bool
    decreases level,
{
    ||| t + 8 * entry_index(g, level) == a
    ||| level > 0 && entry_valid(entry_at(m, t, g, level)) && walk_reads(
        m,
        entry_paddr(entry_at(m, t, g, level)) as int,
        g,
        level - 1,
        a,
    )
}

proof fn lemma_reaches_gap(
    m: Map<u64, u8>,
    t: int,
    gpa: u64,
    level: int,
    target: int,
    target_level: int,
    s: Set<int>,
)
    requires
        0 <= target_level <= level,
        reaches(m, t, gpa, level, target, target_level, s),
    ensures
        first_gap(m, t, gpa, level) == first_gap(m, target, gpa, target_level),
        gap_level(m, t, gpa, level) == gap_level(m, target, gpa, target_level),
    decreases level - target_level,
{
    if level > target_level {
        lemma_reaches_gap(m, entry_paddr(entry_at(m, t, gpa, level)) as int, gpa, level - 1, target, target_level, s);
    }
}

/// A walk through tables handed out that does not read the entry at `a`
/// gives the same leaf in a memory that differs from `m1`, among the bytes
/// handed out, only in that entry.
proof fn lemma_walk_avoiding(
    m1: Map<u64, u8>,
    m2: Map<u64, u8>,
    handed: Set<int>,
    t: int,
    g: u64,
    level: int,
    avoid: Set<int>,
    a: int,
)
    requires
        0 <= level <= 3,
        a % 8 == 0,
        path_ok(m1, handed, t, g, level, avoid),
        !walk_reads(m1, t, g, level, a),
        forall|x: int| #[trigger] handed.contains(x) && !(a <= x < a + 8) ==> byte_of(m2, x) == byte_of(m1, x),
    ensures
        translate_from(m2, t, g, level) == translate_from(m1, t, g, level),
    decreases level,
{
    lemma_entry_index_bound(g, level);
    let e_addr = t + 8 * entry_index(g, level);
    assert(e_addr % 8 == 0) by (nonlinear_arith)
        requires
            t % 4096 == 0,
            e_addr == t + 8 * entry_index(g, level),
    ;
    assert forall|x: int| e_addr <= x < e_addr + 8 implies #[trigger] byte_of(m1, x) == byte_of(m2, x) by {
        assert(t <= x < t + 4096);
        assert(handed.contains(x));
        if a <= x < a + 8 {
            assert(e_addr == a) by (nonlinear_arith)
                requires
                    e_addr % 8 == 0,
                    a % 8 == 0,
                    e_addr <= x < e_addr + 8,
                    a <= x < a + 8,
            ;
        }
    }
    lemma_word_frame(m1, m2, e_addr);
    let e = entry_at(m1, t, g, level);
    if level > 0 && entry_valid(e) {
        lemma_walk_avoiding(m1, m2, handed, entry_paddr(e) as int, g, level - 1, avoid.union(table_bytes(t)), a);
    }
}

proof fn lemma_gap_aligned(m: Map<u64, u8>, handed: Set<int>, t: int, gpa: u64, level: int, avoid: Set<int>)
    requires
        0 <= level <= 3,
        path_ok(m, handed, t, gpa, level, avoid),
    ensures
        first_gap(m, t, gpa, level) % 8 == 0,
    decreases level,
{
    lemma_entry_index_bound(gpa, level);
    let e = entry_at(m, t, gpa, level);
    if level <= 0 || !entry_valid(e) {
        let a = t + 8 * entry_index(gpa, level);
        assert(a % 8 == 0) by (nonlinear_arith)
            requires
                t % 4096 == 0,
                a == t + 8 * entry_index(gpa, level),
        ;
    } else {
        lemma_gap_aligned(m, handed, entry_paddr(e) as int, gpa, level - 1, avoid.union(table_bytes(t)));
    }
}

/// Every page whose walk through tables handed out does not read the entry
/// at `a` translates the same in a memory that differs, among the bytes
/// handed out, only in that entry.
proof fn lemma_translations_avoiding(m1: Map<u64, u8>, m2: Map<u64, u8>, handed: Set<int>, root: u64, a: int)
    requires
        a % 8 == 0,
        forall|x: int| #[trigger] handed.contains(x) && !(a <= x < a + 8) ==> byte_of(m2, x) == byte_of(m1, x),
    ensures
        forall|g: u64|
            path_ok(m1, handed, root as int, g, 3, Set::empty()) && !walk_reads(m1, root as int, g, 3, a)
                ==> #[trigger] translate(m2, root, g) == translate(m1, root, g),
{
    assert forall|g: u64|
        path_ok(m1, handed, root as int, g, 3, Set::empty()) && !walk_reads(m1, root as int, g, 3, a)
            implies #[trigger] translate(m2, root, g) == translate(m1, root, g) by {
        lemma_walk_avoiding(m1, m2, handed, root as int, g, 3, Set::empty(), a);
    }
}

/// The path from a table whose bytes all read zero is that table alone.
pub proof fn lemma_fresh_root_path(m: Map<u64, u8>, t: int, gpa: u64)
    requires
        forall|x: int| t <= x < t + 4096 ==> #[trigger] byte_of(m, x) == 0,
    ensures
        forall|x: int| #[trigger] on_path(m, t, gpa, 3, x) ==> t <= x < t + 4096,
        translate(m, t as u64, gpa) is None || t < 0 || t > u64::MAX,
        tables_missing(m, t, gpa, 3) == 3,
{
    lemma_entry_index_bound(gpa, 3);
    let a = t + 8 * entry_index(gpa, 3);
    assert forall|b: int| a <= b < a + 8 implies #[trigger] byte_of(m, b) == 0 by {
        assert(t <= b < t + 4096);
    }
    crate::memory::lemma_zero_word(m, a);
    assert(!entry_valid(0)) by (bit_vector);
}

/// The leaf entry that `map` writes for `host_paddr` and `flags`.
pub open spec fn leaf_value(host_paddr: u64, flags: u64) -> u64 {
    entry_value(host_paddr, flags | PTE_V | PTE_U)
}

/// Why a page could not be mapped.
#[derive(Debug, Clone, Copy, PartialEq, Eq)]
pub enum MapError {
    /// No page was left in the heap for a page table.
    OutOfMemory,
}

proof fn lemma_word_frame(m1: Map<u64, u8>, m2: Map<u64, u8>, a: int)
    requires
        forall|x: int| a <= x < a + 8 ==> #[trigger] byte_of(m1, x) == byte_of(m2, x),
    ensures
        word_of(m1, a) == word_of(m2, a),
{
    reveal_with_fuel(crate::memory::le_value, 9);
    assert(byte_of(m1, a) == byte_of(m2, a));
    assert(byte_of(m1, a + 1) == byte_of(m2, a + 1));
    assert(byte_of(m1, a + 2) == byte_of(m2, a + 2));
    assert(byte_of(m1, a + 3) == byte_of(m2, a + 3));
    assert(byte_of(m1, a + 4) == byte_of(m2, a + 4));
    assert(byte_of(m1, a + 5) == byte_of(m2, a + 5));
    assert(byte_of(m1, a + 6) == byte_of(m2, a + 6));
    assert(byte_of(m1, a + 7) == byte_of(m2, a + 7));
}

proof fn lemma_entry_index_bound(gpa: u64, level: int)
    requires
        0 <= level <= 3,
    ensures
        0 <= entry_index(gpa, level) < 512,
{
    let sh = (12 + 9 * level) as u64;
    assert((gpa >> sh) & 0x1ff < 512) by (bit_vector);
}

proof fn lemma_entry_frame(m1: Map<u64, u8>, m2: Map<u64, u8>, t: int, gpa: u64, level: int)
    requires
        0 <= level <= 3,
        forall|x: int| t <= x < t + 4096 ==> #[trigger] byte_of(m1, x) == byte_of(m2, x),
    ensures
        entry_at(m1, t, gpa, level) == entry_at(m2, t, gpa, level),
{
    lemma_entry_index_bound(gpa, level);
    let a = t + 8 * entry_index(gpa, level);
    assert forall|x: int| a <= x < a + 8 implies #[trigger] byte_of(m1, x) == byte_of(m2, x) by {
        assert(t <= x < t + 4096);
    }
    lemma_word_frame(m1, m2, a);
}

proof fn lemma_reaches_translate(
    m: Map<u64, u8>,
    t: int,
    gpa: u64,
    level: int,
    target: int,
    target_level: int,
    s: Set<int>,
)
    requires
        0 <= target_level <= level,
        reaches(m, t, gpa, level, target, target_level, s),
    ensures
        translate_from(m, t, gpa, level) == translate_from(m, target, gpa, target_level),
    decreases level - target_level,
{
    if level > target_level {
        lemma_reaches_translate(
            m,
            entry_paddr(entry_at(m, t, gpa, level)) as int,
            gpa,
            level - 1,
            target,
            target_level,
            s,
        );
    }
}

proof fn lemma_reaches_frame(
    m1: Map<u64, u8>,
    m2: Map<u64, u8>,
    t: int,
    gpa: u64,
    level: int,
    target: int,
    target_level: int,
    s: Set<int>,
)
    requires
        0 <= target_level,
        level <= 3,
        reaches(m1, t, gpa, level, target, target_level, s),
        forall|x: int| #[trigger] s.contains(x) ==> byte_of(m1, x) == byte_of(m2, x),
    ensures
        reaches(m2, t, gpa, level, target, target_level, s),
    decreases level - target_level,
{
    if level > target_level {
        assert forall|x: int| t <= x < t + 4096 implies #[trigger] byte_of(m1, x) == byte_of(m2, x) by {
            assert(s.contains(x));
        }
        lemma_entry_frame(m1, m2, t, gpa, level);
        lemma_reaches_frame(
            m1,
            m2,
            entry_paddr(entry_at(m1, t, gpa, level)) as int,
            gpa,
            level - 1,
            target,
            target_level,
            s,
        );
    }
}

proof fn lemma_reaches_extend(
    m: Map<u64, u8>,
    t: int,
    gpa: u64,
    level: int,
    target: int,
    target_level: int,
    s: Set<int>,
    s2: Set<int>,
)
    requires
        0 < target_level <= level,
        reaches(m, t, gpa, level, target, target_level, s),
        entry_valid(entry_at(m, target, gpa, target_level)),
        s.subset_of(s2),
        forall|x: int| target <= x < target + 4096 ==> #[trigger] s2.contains(x),
    ensures
        reaches(
            m,
            t,
            gpa,
            level,
            entry_paddr(entry_at(m, target, gpa, target_level)) as int,
            target_level - 1,
            s2,
        ),
    decreases level - target_level,
{
    if level > target_level {
        assert forall|x: int| t <= x < t + 4096 implies #[trigger] s2.contains(x) by {
            assert(s.contains(x));
        }
        lemma_reaches_extend(
            m,
            entry_paddr(entry_at(m, t, gpa, level)) as int,
            gpa,
            level - 1,
            target,
            target_level,
            s,
            s2,
        );
    } else {
        assert(t == target);
        reveal_with_fuel(reaches, 2);
    }
}

proof fn lemma_order_of_page()
    ensures
        page_round_up(4096) == 4096,
        request_order(4096) == 12,
        block_size(12) == 4096,
{
    vstd::arithmetic::power2::lemma2_to64();
    reveal_with_fuel(crate::allocator::order_from, 14);
}

/// Bytes changed by storing a word at `a` inside the table at `t` lie in
/// that table.
proof fn lemma_store_in_table(m: Map<u64, u8>, t: int, a: int, v: u64)
    requires
        t <= a,
        a + 8 <= t + 4096,
        0 <= a <= u64::MAX - 8,
    ensures
        forall|x: int|
            !(t <= x < t + 4096) ==> #[trigger] byte_of(store_word(m, a, v), x) == byte_of(m, x),
        word_of(store_word(m, a, v), a) == v,
{
    lemma_store_word(m, a, v);
}

/// The 8-byte aligned word of `m` that holds byte `x` is no valid entry.
pub open spec fn in_invalid_entry(m: Map<u64, u8>, x: int) -> bool {
    !entry_valid(word_of(m, x - x % 8))
}

/// `m2` differs from `m1` only in bytes outside `handed` and in words that
/// were no valid entry in `m1`.
pub open spec fn changes_spare_entries(m1: Map<u64, u8>, m2: Map<u64, u8>, handed: Set<int>) -> bool {
    forall|x: int|
        #[trigger] byte_of(m2, x) != byte_of(m1, x) ==> !handed.contains(x) || in_invalid_entry(m1, x)
}

/// A byte of the entry word at `a`, 8-byte aligned, lies in the word that
/// starts at `a`.
proof fn lemma_aligned_word(a: int, x: int)
    requires
        a % 8 == 0,
        a <= x < a + 8,
    ensures
        x - x % 8 == a,
{
    assert(x - x % 8 == a) by (nonlinear_arith)
        requires
            a % 8 == 0,
            a <= x < a + 8,
    ;
}

/// A walk through tables handed out, along valid entries, reads the same
/// entries in a memory that changed only spare entries and bytes not handed
/// out: the translation stays.
proof fn lemma_walk_kept(
    m1: Map<u64, u8>,
    m2: Map<u64, u8>,
    handed: Set<int>,
    t: int,
    gpa: u64,
    level: int,
    avoid: Set<int>,
)
    requires
        0 <= level <= 3,
        path_ok(m1, handed, t, gpa, level, avoid),
        translate_from(m1, t, gpa, level) is Some,
        changes_spare_entries(m1, m2, handed),
    ensures
        translate_from(m2, t, gpa, level) == translate_from(m1, t, gpa, level),
    decreases level,
{
    lemma_entry_index_bound(gpa, level);
    let a = t + 8 * entry_index(gpa, level);
    let e = entry_at(m1, t, gpa, level);
    assert(a % 8 == 0) by (nonlinear_arith)
        requires
            t % 4096 == 0,
            a == t + 8 * entry_index(gpa, level),
    ;
    assert forall|x: int| a <= x < a + 8 implies #[trigger] byte_of(m1, x) == byte_of(m2, x) by {
        assert(t <= x < t + 4096);
        assert(handed.contains(x));
        lemma_aligned_word(a, x);
        if byte_of(m2, x) != byte_of(m1, x) {
            assert(in_invalid_entry(m1, x));
        }
    }
    lemma_word_frame(m1, m2, a);
    if level > 0 {
        lemma_walk_kept(m1, m2, handed, entry_paddr(e) as int, gpa, level - 1, avoid.union(table_bytes(t)));
    }
}

/// Memory that changed only where bytes were not handed out keeps the
/// spare-entry property of the earlier changes.
proof fn lemma_changes_then_unhanded(
    m0: Map<u64, u8>,
    m1: Map<u64, u8>,
    m2: Map<u64, u8>,
    h0: Set<int>,
    h1: Set<int>,
)
    requires
        changes_spare_entries(m0, m1, h0),
        h0.subset_of(h1),
        forall|x: int| #[trigger] h1.contains(x) ==> byte_of(m2, x) == byte_of(m1, x),
    ensures
        changes_spare_entries(m0, m2, h0),
{
    assert forall|x: int| #[trigger] byte_of(m2, x) != byte_of(m0, x) implies !h0.contains(x)
        || in_invalid_entry(m0, x) by {
        if byte_of(m1, x) == byte_of(m0, x) && h0.contains(x) {
            assert(h1.contains(x));
        }
    }
}

/// Storing a word over an entry that was no valid entry, or in bytes not
/// handed out, keeps the spare-entry property.
proof fn lemma_changes_then_store(m0: Map<u64, u8>, m1: Map<u64, u8>, h0: Set<int>, a: int, v: u64)
    requires
        changes_spare_entries(m0, m1, h0),
        a % 8 == 0,
        0 <= a <= u64::MAX - 8,
        !entry_valid(word_of(m0, a)) || forall|x: int| a <= x < a + 8 ==> !#[trigger] h0.contains(x),
    ensures
        changes_spare_entries(m0, store_word(m1, a, v), h0),
{
    crate::memory::lemma_store_word(m1, a, v);
    let m2 = store_word(m1, a, v);
    assert forall|x: int| #[trigger] byte_of(m2, x) != byte_of(m0, x) implies !h0.contains(x)
        || in_invalid_entry(m0, x) by {
        if a <= x < a + 8 {
            lemma_aligned_word(a, x);
        } else {
            assert(byte_of(m2, x) == byte_of(m1, x));
        }
    }
}

/// Every page translated before, through tables handed out, translates the
/// same way in a memory that changed only spare entries and bytes not handed
/// out.
proof fn lemma_translations_kept(m1: Map<u64, u8>, m2: Map<u64, u8>, handed: Set<int>, root: u64)
    requires
        changes_spare_entries(m1, m2, handed),
    ensures
        forall|g: u64|
            translate(m1, root, g) is Some && path_ok(m1, handed, root as int, g, 3, Set::empty())
                ==> #[trigger] translate(m2, root, g) == translate(m1, root, g),
{
    assert forall|g: u64|
        translate(m1, root, g) is Some && path_ok(m1, handed, root as int, g, 3, Set::empty())
            implies #[trigger] translate(m2, root, g) == translate(m1, root, g) by {
        lemma_walk_kept(m1, m2, handed, root as int, g, 3, Set::empty());
    }
}

/// The byte at `x` lies in the entry of the table at `t` of `level` that
/// translates `gpa`.
pub open spec fn in_walk_entry(t: int, gpa: u64, level: int, x: int) -> bool {
    t + 8 * entry_index(gpa, level) <= x < t + 8 * entry_index(gpa, level) + 8
}

/// The table at `t` of `level` is new: none of its bytes was handed out in
/// `h0`, all of them read zero in `m0`, and all of them read zero in `m`
/// but for its entry that translates `gpa`.
pub open spec fn fresh_table(m0: Map<u64, u8>, m: Map<u64, u8>, h0: Set<int>, t: int, gpa: u64, level: int) -> bool {
    &&& forall|x: int| t <= x < t + 4096 ==> !#[trigger] h0.contains(x)
    &&& forall|x: int| t <= x < t + 4096 ==> #[trigger] byte_of(m0, x) == 0
    &&& forall|x: int|
        t <= x < t + 4096 && !in_walk_entry(t, gpa, level, x) ==> #[trigger] byte_of(m, x) == 0
}

/// Walking towards `gpa` from the table at `t` of `level` down to the table
/// of `target_level`, every entry on the way in `m` is valid, and every one
/// that differs from `m0` is a link with the flags `PTE_V` alone (no `R`,
/// `W` or `X`, so no leaf) to a new table ([`fresh_table`]).
pub open spec fn links_to(
    m0: Map<u64, u8>,
    m: Map<u64, u8>,
    h0: Set<int>,
    t: int,
    gpa: u64,
    level: int,
    target_level: int,
) -> bool
    decreases level - target_level,
{
    if level <= target_level {
        true
    } else {
        let e = entry_at(m, t, gpa, level);
        &&& entry_valid(e)
        &&& e != entry_at(m0, t, gpa, level) ==> e & 0x3ff == PTE_V && fresh_table(
            m0,
            m,
            h0,
            entry_paddr(e) as int,
            gpa,
            level - 1,
        )
        &&& links_to(m0, m, h0, entry_paddr(e) as int, gpa, level - 1, target_level)
    }
}

/// The table that the walk towards `g` from the table at `t` of `level`
/// reaches at `target` (through valid entries); `None` when an entry on the
/// way is not valid.
pub open spec fn walk_table(m: Map<u64, u8>, t: int, g: u64, level: int, target: int) -> Option<int>
    decreases level - target,
{
    if level <= target {
        Some(t)
    } else if !entry_valid(entry_at(m, t, g, level)) {
        None
    } else {
        walk_table(m, entry_paddr(entry_at(m, t, g, level)) as int, g, level - 1, target)
    }
}

/// A walk through tables handed out, down to the table of `target`, reads no
/// entry that is not valid: it goes the same way, and on to the same leaf,
/// in a memory that differs among the bytes handed out only in the entry at
/// `a`, one that is not valid.
proof fn lemma_walk_to_level_kept(
    m1: Map<u64, u8>,
    m2: Map<u64, u8>,
    handed: Set<int>,
    t: int,
    g: u64,
    level: int,
    avoid: Set<int>,
    target: int,
    a: int,
)
    requires
        0 <= target <= level <= 3,
        a % 8 == 0,
        path_ok(m1, handed, t, g, level, avoid),
        walk_table(m1, t, g, level, target) is Some,
        !entry_valid(word_of(m1, a)),
        forall|x: int| #[trigger] handed.contains(x) && !(a <= x < a + 8) ==> byte_of(m2, x) == byte_of(m1, x),
    ensures
        walk_table(m2, t, g, level, target) == walk_table(m1, t, g, level, target),
        translate_from(m2, t, g, level) == translate_from(m2, walk_table(m1, t, g, level, target)->0, g, target),
    decreases level,
{
    if level > target {
        lemma_entry_index_bound(g, level);
        let e_addr = t + 8 * entry_index(g, level);
        assert(e_addr % 8 == 0) by (nonlinear_arith)
            requires
                t % 4096 == 0,
                e_addr == t + 8 * entry_index(g, level),
        ;
        assert(e_addr != a);
        assert forall|x: int| e_addr <= x < e_addr + 8 implies #[trigger] byte_of(m1, x) == byte_of(m2, x) by {
            assert(t <= x < t + 4096);
            assert(handed.contains(x));
            if a <= x < a + 8 {
                assert(e_addr == a) by (nonlinear_arith)
                    requires
                        e_addr % 8 == 0,
                        a % 8 == 0,
                        e_addr <= x < e_addr + 8,
                        a <= x < a + 8,
                ;
            }
        }
        lemma_word_frame(m1, m2, e_addr);
        let e = entry_at(m1, t, g, level);
        lemma_walk_to_level_kept(m1, m2, handed, entry_paddr(e) as int, g, level - 1, avoid.union(table_bytes(t)), target, a);
    }
}

/// The links down a walk hold from every table the walk reaches.
proof fn lemma_links_down(
    m0: Map<u64, u8>,
    m: Map<u64, u8>,
    h0: Set<int>,
    t: int,
    gpa: u64,
    level: int,
    target: int,
)
    requires
        0 <= target <= level,
        links_to(m0, m, h0, t, gpa, level, 0),
        walk_table(m, t, gpa, level, target) is Some,
    ensures
        links_to(m0, m, h0, walk_table(m, t, gpa, level, target)->0, gpa, target, 0),
    decreases level - target,
{
    if level > target {
        lemma_links_down(m0, m, h0, entry_paddr(entry_at(m, t, gpa, level)) as int, gpa, level - 1, target);
    }
}

/// From a new table on the links, a page whose walk leaves that of `gpa`
/// reads a zero entry: it has no translation.
proof fn lemma_fresh_walk(
    m0: Map<u64, u8>,
    m: Map<u64, u8>,
    h0: Set<int>,
    t: int,
    gpa: u64,
    g: u64,
    level: int,
)
    requires
        0 <= level <= 3,
        links_to(m0, m, h0, t, gpa, level, 0),
        fresh_table(m0, m, h0, t, gpa, level),
        exists|l: int| 0 <= l <= level && entry_index(g, l) != entry_index(gpa, l),
    ensures
        translate_from(m, t, g, level) is None,
    decreases level,
{
    lemma_entry_index_bound(g, level);
    lemma_entry_index_bound(gpa, level);
    assert(!entry_valid(0)) by (bit_vector);
    if entry_index(g, level) != entry_index(gpa, level) {
        let a = t + 8 * entry_index(g, level);
        assert forall|b: int| a <= b < a + 8 implies #[trigger] byte_of(m, b) == 0 by {
            assert(t <= b < t + 4096);
            assert(!in_walk_entry(t, gpa, level, b));
        }
        crate::memory::lemma_zero_word(m, a);
    } else {
        if level == 0 {
            let l = choose|l: int| 0 <= l <= level && entry_index(g, l) != entry_index(gpa, l);
            assert(false);
        }
        let a = t + 8 * entry_index(gpa, level);
        assert forall|b: int| a <= b < a + 8 implies #[trigger] byte_of(m0, b) == 0 by {
            assert(t <= b < t + 4096);
        }
        crate::memory::lemma_zero_word(m0, a);
        let e = entry_at(m, t, gpa, level);
        assert(entry_at(m, t, g, level) == e);
        assert(e != entry_at(m0, t, gpa, level));
        let l = choose|l: int| 0 <= l <= level && entry_index(g, l) != entry_index(gpa, l);
        assert(l < level);
        lemma_fresh_walk(m0, m, h0, entry_paddr(e) as int, gpa, g, level - 1);
    }
}

/// The walk towards `gpa` reaches, at the gap's level, the table that holds
/// the gap; the gap above the leaf level is an entry that is not valid.
proof fn lemma_gap_walk(m: Map<u64, u8>, t: int, gpa: u64, level: int)
    requires
        0 <= level <= 3,
    ensures
        0 <= gap_level(m, t, gpa, level) <= level,
        walk_table(m, t, gpa, level, gap_level(m, t, gpa, level)) is Some,
        first_gap(m, t, gpa, level) == walk_table(m, t, gpa, level, gap_level(m, t, gpa, level))->0 + 8
            * entry_index(gpa, gap_level(m, t, gpa, level)),
        gap_level(m, t, gpa, level) > 0 ==> !entry_valid(
            entry_at(m, walk_table(m, t, gpa, level, gap_level(m, t, gpa, level))->0, gpa, gap_level(m, t, gpa, level)),
        ),
    decreases level,
{
    if level > 0 && entry_valid(entry_at(m, t, gpa, level)) {
        lemma_gap_walk(m, entry_paddr(entry_at(m, t, gpa, level)) as int, gpa, level - 1);
    }
}

/// The walk towards `g` reads the entry that mapping `gpa` writes (in the
/// same table, at the same level: [`first_gap`]) and then leaves the walk of
/// `gpa` at a lower level.
pub open spec fn leaves_below_gap(m: Map<u64, u8>, root: int, gpa: u64, g: u64) -> bool {
    let lv = gap_level(m, root, gpa, 3);
    &&& walk_table(m, root, g, 3, lv) == walk_table(m, root, gpa, 3, lv)
    &&& entry_index(g, lv) == entry_index(gpa, lv)
    &&& exists|l: int| 0 <= l < lv && entry_index(g, l) != entry_index(gpa, l)
}

/// After `gpa` was mapped, a page whose walk reads the entry that the
/// mapping wrote (at the same level, in the same table) and that leaves the
/// walk of `gpa` below it, has no translation, before or after.
proof fn lemma_gap_readers_unmapped(
    m0: Map<u64, u8>,
    m: Map<u64, u8>,
    h0: Set<int>,
    root: u64,
    gpa: u64,
    g: u64,
)
    requires
        path_ok(m0, h0, root as int, gpa, 3, Set::empty()),
        path_ok(m0, h0, root as int, g, 3, Set::empty()),
        links_to(m0, m, h0, root as int, gpa, 3, 0),
        first_gap(m0, root as int, gpa, 3) % 8 == 0,
        forall|x: int|
            #[trigger] h0.contains(x) && !(first_gap(m0, root as int, gpa, 3) <= x < first_gap(m0, root as int, gpa, 3) + 8)
                ==> byte_of(m, x) == byte_of(m0, x),
        leaves_below_gap(m0, root as int, gpa, g),
    ensures
        translate(m0, root, g) is None,
        translate(m, root, g) is None,
{
    let r = root as int;
    let lv = gap_level(m0, r, gpa, 3);
    let a = first_gap(m0, r, gpa, 3);
    lemma_gap_walk(m0, r, gpa, 3);
    let t = walk_table(m0, r, gpa, 3, lv)->0;
    let l = choose|l: int| 0 <= l < lv && entry_index(g, l) != entry_index(gpa, l);
    assert(lv > 0);
    assert(a == t + 8 * entry_index(g, lv));
    assert(entry_at(m0, t, gpa, lv) == word_of(m0, a));
    // Before: the walk of `g` reads the gap, which is no valid entry.
    lemma_walk_to_level_kept(m0, m0, h0, r, g, 3, Set::empty(), lv, a);
    assert(entry_at(m0, t, g, lv) == word_of(m0, a));
    // After: the walks of `g` and `gpa` reach the same table, whose entry
    // leads to a new table.
    lemma_walk_to_level_kept(m0, m, h0, r, g, 3, Set::empty(), lv, a);
    lemma_walk_to_level_kept(m0, m, h0, r, gpa, 3, Set::empty(), lv, a);
    lemma_links_down(m0, m, h0, r, gpa, 3, lv);
    let e = entry_at(m, t, gpa, lv);
    assert(entry_at(m, t, g, lv) == e);
    assert(entry_valid(e));
    assert(e != entry_at(m0, t, gpa, lv));
    lemma_fresh_walk(m0, m, h0, entry_paddr(e) as int, gpa, g, lv - 1);
}

/// The links stay when the tables above the target keep their bytes and the
/// target table keeps all of them but its entry on the walk.
proof fn lemma_links_frame(
    m0: Map<u64, u8>,
    m1: Map<u64, u8>,
    m2: Map<u64, u8>,
    h0: Set<int>,
    t: int,
    gpa: u64,
    level: int,
    target: int,
    target_level: int,
    s: Set<int>,
)
    requires
        0 <= target_level,
        level <= 3,
        reaches(m1, t, gpa, level, target, target_level, s),
        links_to(m0, m1, h0, t, gpa, level, target_level),
        forall|x: int| #[trigger] s.contains(x) ==> byte_of(m1, x) == byte_of(m2, x),
        forall|x: int|
            target <= x < target + 4096 && !in_walk_entry(target, gpa, target_level, x)
                ==> #[trigger] byte_of(m1, x) == byte_of(m2, x),
    ensures
        links_to(m0, m2, h0, t, gpa, level, target_level),
    decreases level - target_level,
{
    if level > target_level {
        assert forall|x: int| t <= x < t + 4096 implies #[trigger] byte_of(m1, x) == byte_of(m2, x) by {
            assert(s.contains(x));
        }
        lemma_entry_frame(m1, m2, t, gpa, level);
        let e = entry_at(m1, t, gpa, level);
        let c = entry_paddr(e) as int;
        assert(reaches(m1, c, gpa, level - 1, target, target_level, s));
        if e != entry_at(m0, t, gpa, level) {
            if level - 1 == target_level {
                assert(c == target);
            }
            if level - 1 > target_level {
                assert forall|x: int| c <= x < c + 4096 implies #[trigger] byte_of(m1, x) == byte_of(m2, x) by {
                    assert(s.contains(x));
                }
            }
            assert forall|x: int|
                c <= x < c + 4096 && !in_walk_entry(c, gpa, level - 1, x) implies #[trigger] byte_of(m2, x) == 0 by {
                assert(byte_of(m1, x) == byte_of(m2, x));
            }
        }
        lemma_links_frame(m0, m1, m2, h0, c, gpa, level - 1, target, target_level, s);
    }
}

/// The links reach one level further down when the entry of the target
/// table is valid and, where it changed, a link to a new table.
proof fn lemma_links_extend(
    m0: Map<u64, u8>,
    m: Map<u64, u8>,
    h0: Set<int>,
    t: int,
    gpa: u64,
    level: int,
    target: int,
    target_level: int,
    s: Set<int>,
)
    requires
        0 < target_level <= level,
        reaches(m, t, gpa, level, target, target_level, s),
        links_to(m0, m, h0, t, gpa, level, target_level),
        entry_valid(entry_at(m, target, gpa, target_level)),
        entry_at(m, target, gpa, target_level) != entry_at(m0, target, gpa, target_level) ==> entry_at(m, target, gpa, target_level) & 0x3ff == PTE_V
            && fresh_table(m0, m, h0, entry_paddr(entry_at(m, target, gpa, target_level)) as int, gpa, target_level - 1),
    ensures
        links_to(m0, m, h0, t, gpa, level, target_level - 1),
    decreases level - target_level,
{
    if level > target_level {
        lemma_links_extend(
            m0,
            m,
            h0,
            entry_paddr(entry_at(m, t, gpa, level)) as int,
            gpa,
            level - 1,
            target,
            target_level,
            s,
        );
    } else {
        assert(t == target);
        reveal_with_fuel(links_to, 2);
    }
}

impl Table {
    /// A new page table: one zeroed page of the heap.  `None` when the heap
    /// has no page left.
    pub fn allocate(heap: &mut Heap, mem: &mut Memory) -> (r: Option<Table>)
        requires
            old(heap).wf(),
            old(heap).memory_clean(old(mem)@),
        ensures
            final(heap).wf(),
            final(heap).memory_clean(final(mem)@),
            final(heap).base_addr == old(heap).base_addr,
            final(heap).limit@ == old(heap).limit@,
            r is None <==> first_nonempty(old(heap).free_list@, 12) == FREE_LIST_LENGTH,
            r is None ==> final(heap).free_list@ == old(heap).free_list@ && final(mem)@ == old(
                mem,
            )@ && final(heap).handed_out@ == old(heap).handed_out@,
            r is Some ==> final(heap).free_list@ == after_clean_alloc(old(heap).free_list@, 12),
            r matches Some(t) ==> {
                &&& t.base == old(heap).free_list@[first_nonempty(old(heap).free_list@, 12)]
                &&& old(heap).base_addr <= t.base
                &&& (t.base - old(heap).base_addr) % 4096 == 0
                &&& t.base + 4096 <= old(heap).limit@
                &&& forall|x: int|
                    t.base <= x < t.base + 4096 ==> !#[trigger] old(heap).handed_out@.contains(x)
                &&& final(heap).handed_out@ == old(heap).handed_out@.union(table_bytes(t.base as int))
                &&& forall|x: int| t.base <= x < t.base + 4096 ==> #[trigger] byte_of(final(mem)@, x) == 0
            },
            forall|x: int| #[trigger]
                old(heap).handed_out@.contains(x) ==> byte_of(final(mem)@, x) == byte_of(
                    old(mem)@,
                    x,
                ),
    {
        proof {
            lemma_order_of_page();
            crate::allocator::lemma_first_nonempty(old(heap).free_list@, 12);
            if old(heap).free_list@[12] != 0 {
                crate::allocator::lemma_clean_head_link(*old(heap), old(mem)@, 12);
            }
        }
        let p = alloc_pages(heap, mem, TABLE_SIZE);
        match p {
            Some(a) => {
                proof {
                    assert(block_bytes(a as int, 12) =~= table_bytes(a as int));
                }
                Some(Table { base: a as u64 })
            },
            None => None,
        }
    }
}

impl GuestPageTable {
    /// A page table with a fresh, empty root table.  `None` when the heap has
    /// no page left.
    pub fn new(heap: &mut Heap, mem: &mut Memory) -> (r: Option<GuestPageTable>)
        requires
            old(heap).wf(),
            old(heap).memory_clean(old(mem)@),
        ensures
            final(heap).wf(),
            final(heap).memory_clean(final(mem)@),
            final(heap).base_addr == old(heap).base_addr,
            final(heap).limit@ == old(heap).limit@,
            r is None <==> first_nonempty(old(heap).free_list@, 12) == FREE_LIST_LENGTH,
            r is None ==> final(heap).free_list@ == old(heap).free_list@,
            r is Some ==> final(heap).free_list@ == after_clean_alloc(old(heap).free_list@, 12),
            old(heap).handed_out@.subset_of(final(heap).handed_out@),
            r matches Some(g) ==> {
                &&& g.table == old(heap).free_list@[first_nonempty(old(heap).free_list@, 12)]
                &&& final(heap).handed_out@ == old(heap).handed_out@.union(table_bytes(g.table as int))
                &&& forall|x: int| g.table <= x < g.table + 4096 ==> #[trigger] byte_of(final(mem)@, x) == 0
                &&& old(heap).base_addr % 4096 == 0 ==> good_table(g.table as int, final(heap).handed_out@, old(heap).handed_out@)
                &&& forall|gpa: u64| translate(final(mem)@, g.table, gpa) is None
                &&& old(heap).base_addr % 4096 == 0 ==> forall|gpa: u64| #[trigger] path_ok(final(mem)@, final(heap).handed_out@, g.table as int, gpa, 3, Set::empty())
            },
            forall|x: int| #[trigger]
                old(heap).handed_out@.contains(x) ==> byte_of(final(mem)@, x) == byte_of(
                    old(mem)@,
                    x,
                ),
    {
        match Table::allocate(heap, mem) {
            Some(t) => {
                let g = GuestPageTable { table: t.base };
                proof {
                    let m = mem@;
                    assert forall|gpa: u64| #[trigger] translate(m, g.table, gpa) is None && (old(heap).base_addr % 4096 == 0 ==> path_ok(m, heap.handed_out@, g.table as int, gpa, 3, Set::empty())) by {
                        lemma_entry_index_bound(gpa, 3);
                        let a = g.table + 8 * entry_index(gpa, 3);
                        assert forall|b: int| a <= b < a + 8 implies #[trigger] byte_of(m, b) == 0 by {
                            assert(g.table <= b < g.table + 4096);
                        }
                        crate::memory::lemma_zero_word(m, a);
                        assert(!entry_valid(0)) by (bit_vector);
                        if old(heap).base_addr % 4096 == 0 {
                            assert(good_table(g.table as int, heap.handed_out@, Set::empty()));
                        }
                    }
                    if old(heap).base_addr % 4096 == 0 {
                        assert(t.base % 4096 == 0);
                        assert forall|gpa: u64| #[trigger] path_ok(m, heap.handed_out@, g.table as int, gpa, 3, Set::empty()) by {
                            assert(translate(m, g.table, gpa) is None);
                        }
                    }
                }
                Some(g)
            },
            None => None,
        }
    }

    /// Maps the guest page of `guest_paddr` to the host page of `host_paddr`
    /// with `flags` (and `PTE_V | PTE_U`), adding the missing tables of the
    /// levels above from the heap.  The page must not be mapped yet.  `Err`
    /// when the heap has no page left for a missing table ([`blocks_fit`]
    /// over [`tables_missing`] tells beforehand).
    ///
    /// Of the bytes handed out before, only one entry changes: the first one
    /// on the walk of `guest_paddr` that was not valid ([`first_gap`]).  A
    /// page whose walk does not read that entry keeps its translation, and one
    /// that reads it and then leaves the walk of `guest_paddr`
    /// ([`leaves_below_gap`]) stays without one.
    pub fn map(
        &self,
        heap: &mut Heap,
        mem: &mut Memory,
        guest_paddr: u64,
        host_paddr: u64,
        flags: u64,
    ) -> (r: Result<(), MapError>)
        requires
            old(heap).wf(),
            old(heap).memory_clean(old(mem)@),
            old(heap).base_addr % 4096 == 0,
            old(heap).limit@ <= 0x0100_0000_0000_0000,
            path_ok(old(mem)@, old(heap).handed_out@, self.table as int, guest_paddr, 3, Set::empty()),
            translate(old(mem)@, self.table, guest_paddr) is None,
        ensures
            final(heap).wf(),
            final(heap).memory_clean(final(mem)@),
            final(heap).base_addr == old(heap).base_addr,
            final(heap).limit@ == old(heap).limit@,
            old(heap).handed_out@.subset_of(final(heap).handed_out@),
            r is Ok ==> translate(final(mem)@, self.table, guest_paddr) == Some(
                leaf_value(host_paddr, flags),
            ),
            r is Ok ==> links_to(
                old(mem)@,
                final(mem)@,
                old(heap).handed_out@,
                self.table as int,
                guest_paddr,
                3,
                0,
            ),
            r is Err <==> !blocks_fit(
                old(heap).free_list@,
                12,
                tables_missing(old(mem)@, self.table as int, guest_paddr, 3),
            ),
            r is Ok ==> final(heap).free_list@ == after_clean_allocs(
                old(heap).free_list@,
                12,
                tables_missing(old(mem)@, self.table as int, guest_paddr, 3),
            ),
            r is Err ==> first_nonempty(
                final(heap).free_list@,
                12,
            ) == FREE_LIST_LENGTH,
            forall|x: int|
                old(heap).handed_out@.contains(x) && !on_path(old(mem)@, self.table as int, guest_paddr, 3, x)
                    ==> #[trigger] byte_of(final(mem)@, x) == byte_of(old(mem)@, x),
            forall|x: int|
                #[trigger] old(heap).handed_out@.contains(x) && !(first_gap(old(mem)@, self.table as int, guest_paddr, 3)
                    <= x < first_gap(old(mem)@, self.table as int, guest_paddr, 3) + 8)
                    ==> byte_of(final(mem)@, x) == byte_of(old(mem)@, x),
            r is Ok ==> forall|m2: Map<u64, u8>|
                (forall|x: int| #[trigger] final(heap).handed_out@.contains(x) ==> byte_of(m2, x) == byte_of(final(mem)@, x))
                    ==> #[trigger] translate(m2, self.table, guest_paddr) == translate(final(mem)@, self.table, guest_paddr),
            forall|g: u64|
                translate(old(mem)@, self.table, g) is Some && path_ok(
                    old(mem)@,
                    old(heap).handed_out@,
                    self.table as int,
                    g,
                    3,
                    Set::empty(),
                ) ==> #[trigger] translate(final(mem)@, self.table, g) == translate(old(mem)@, self.table, g),
            r is Ok ==> forall|g: u64|
                path_ok(old(mem)@, old(heap).handed_out@, self.table as int, g, 3, Set::empty()) && leaves_below_gap(
                    old(mem)@,
                    self.table as int,
                    guest_paddr,
                    g,
                ) ==> #[trigger] translate(final(mem)@, self.table, g) is None && translate(old(mem)@, self.table, g) is None,
            forall|g: u64|
                path_ok(old(mem)@, old(heap).handed_out@, self.table as int, g, 3, Set::empty()) && !walk_reads(
                    old(mem)@,
                    self.table as int,
                    g,
                    3,
                    first_gap(old(mem)@, self.table as int, guest_paddr, 3),
                ) ==> #[trigger] translate(final(mem)@, self.table, g) == translate(old(mem)@, self.table, g),
    {
        let ghost old_mem = mem@;
        let ghost old_handed = heap.handed_out@;
        let ghost root = self.table as int;
        let mut table: u64 = self.table;
        let mut level: usize = 3;
        let ghost mut above: Set<int> = Set::empty();
        let ghost mut fresh: bool = false;
        let ghost gap = first_gap(old_mem, root, guest_paddr, 3);
        proof {
            lemma_gap_aligned(old_mem, old_handed, root, guest_paddr, 3, Set::empty());
            assert(reaches(mem@, root, guest_paddr, 3, root, 3, above));
        }
        while level > 0
            invariant
                gap == first_gap(old_mem, root, guest_paddr, 3),
                gap % 8 == 0,
                forall|x: int| #[trigger] old_handed.contains(x) && !(gap <= x < gap + 8) ==> byte_of(mem@, x) == byte_of(old_mem, x),
                0 <= level <= 3,
                heap.wf(),
                heap.memory_clean(mem@),
                heap.base_addr == old(heap).base_addr,
                heap.limit@ == old(heap).limit@,
                heap.base_addr % 4096 == 0,
                heap.limit@ <= 0x0100_0000_0000_0000,
                old_handed == old(heap).handed_out@,
                old_mem == old(mem)@,
                root == self.table,
                old_handed.subset_of(heap.handed_out@),
                good_table(table as int, heap.handed_out@, above),
                forall|x: int| #[trigger] above.contains(x) ==> heap.handed_out@.contains(x),
                reaches(mem@, root, guest_paddr, 3, table as int, level as int, above),
                fresh ==> translate(old_mem, self.table, guest_paddr) is None,
                fresh ==> forall|x: int|
                    table <= x < table + 4096 ==> #[trigger] byte_of(mem@, x) == 0,
                !fresh ==> mem@ == old_mem && heap.free_list@ == old(heap).free_list@
                    && heap.handed_out@ == old_handed,
                !fresh ==> path_ok(old_mem, old_handed, table as int, guest_paddr, level as int, above),
                fresh ==> forall|x: int| table <= x < table + 4096 ==> !#[trigger] old_handed.contains(x),
                forall|x: int|
                    old_handed.contains(x) && !on_path(old_mem, root, guest_paddr, 3, x)
                        ==> #[trigger] byte_of(mem@, x) == byte_of(old_mem, x),
                changes_spare_entries(old_mem, mem@, old_handed),
                old(heap).memory_clean(old_mem),
                links_to(old_mem, mem@, old_handed, root, guest_paddr, 3, level as int),
                blocks_fit(
                    heap.free_list@,
                    12,
                    if fresh { level as nat } else { tables_missing(old_mem, table as int, guest_paddr, level as int) },
                ) == blocks_fit(old(heap).free_list@, 12, tables_missing(old_mem, root, guest_paddr, 3)),
                (if fresh { level as nat } else { tables_missing(old_mem, table as int, guest_paddr, level as int) })
                    <= tables_missing(old_mem, root, guest_paddr, 3),
                heap.free_list@ == after_clean_allocs(
                    old(heap).free_list@,
                    12,
                    (tables_missing(old_mem, root, guest_paddr, 3) - (if fresh { level as nat } else {
                        tables_missing(old_mem, table as int, guest_paddr, level as int)
                    })) as nat,
                ),
            decreases level,
        {
            let t = Table { base: table };
            let entry_addr = t.entry_by_addr(guest_paddr, level);
            let entry = PageEntry(mem.read_u64(entry_addr));
            let ghost idx_ok = entry_index(guest_paddr, level as int);
            proof {
                lemma_entry_index_bound(guest_paddr, level as int);
                if fresh {
                    assert forall|b: int| entry_addr <= b < entry_addr + 8 implies #[trigger] byte_of(mem@, b) == 0 by {
                        assert(table <= b < table + 4096);
                    }
                    crate::memory::lemma_zero_word(mem@, entry_addr as int);
                    assert(!entry_valid(0)) by (bit_vector);
                }
            }
            if !entry.is_valid() {
                proof {
                    if !fresh {
                        lemma_reaches_translate(mem@, root, guest_paddr, 3, table as int, level as int, above);
                    }
                }
                let ghost mem_before = mem@;
                let ghost handed_before = heap.handed_out@;
                let ghost fl_before = heap.free_list@;
                let new_table = Table::allocate(heap, mem);
                proof {
                    lemma_changes_then_unhanded(old_mem, mem_before, mem@, old_handed, handed_before);
                }
                match new_table {
                    None => {
                        proof {
                            lemma_translations_kept(old_mem, mem@, old_handed, self.table);
                            lemma_translations_avoiding(old_mem, mem@, old_handed, self.table, gap);
                            assert(!blocks_fit(fl_before, 12, level as nat));
                        }
                        return Err(MapError::OutOfMemory);
                    },
                    Some(nt) => {
                        let ghost mem_alloc = mem@;
                        proof {
                            assert(entry_addr % 8 == 0) by (nonlinear_arith)
                                requires
                                    table % 4096 == 0,
                                    entry_addr == table + 8 * entry_index(guest_paddr, level as int),
                            ;
                            if !fresh {
                                assert(word_of(old_mem, entry_addr as int) == entry.0);
                            }
                        }
                        let new_entry = PageEntry::new(nt.base, PTE_V);
                        mem.write_u64(entry_addr, new_entry.0);
                        proof {
                            lemma_changes_then_store(old_mem, mem_alloc, old_handed, entry_addr as int, new_entry.0);
                            let m2 = mem@;
                            lemma_store_in_table(mem_alloc, table as int, entry_addr as int, new_entry.0);
                            assert(nt.base % 4096 == 0);
                            assert(nt.base < 0x0100_0000_0000_0000);
                            assert(PTE_V == 1) by (bit_vector);
                            crate::guest_table::lemma_entry_round_trip(nt.base, PTE_V);
                            assert(PTE_V & PTE_V != 0) by (bit_vector);
                            assert(entry_valid(new_entry.0));
                            let nb = nt.base;
                            assert(nb & !0xfffu64 == nb) by (bit_vector)
                                requires nb % 4096 == 0;
                            assert(entry_at(m2, table as int, guest_paddr, level as int) == new_entry.0);
                            // the tables above are untouched
                            assert forall|x: int| #[trigger] above.contains(x) implies byte_of(mem_before, x) == byte_of(m2, x) by {
                                assert(handed_before.contains(x));
                                assert(!(table <= x < table + 4096));
                            }
                            lemma_reaches_frame(mem_before, m2, root, guest_paddr, 3, table as int, level as int, above);
                            let above2 = above.union(table_bytes(table as int));
                            lemma_reaches_extend(m2, root, guest_paddr, 3, table as int, level as int, above, above2);
                            assert forall|x: int| #[trigger] above2.contains(x) implies heap.handed_out@.contains(x) by {
                                if !above.contains(x) {
                                    assert(handed_before.contains(x));
                                }
                            }
                            assert forall|x: int| nt.base <= x < nt.base + 4096 implies #[trigger] heap.handed_out@.contains(x) && !above2.contains(x) by {
                                assert(!handed_before.contains(x));
                                assert(table_bytes(nt.base as int).contains(x));
                                if above.contains(x) {
                                    assert(handed_before.contains(x));
                                }
                                if table <= x < table + 4096 {
                                    assert(handed_before.contains(x));
                                }
                            }
                            assert forall|x: int| nt.base <= x < nt.base + 4096 implies #[trigger] byte_of(m2, x) == 0 by {
                                assert(!handed_before.contains(x));
                                if table <= x < table + 4096 {
                                    assert(handed_before.contains(x));
                                }
                            }
                            assert forall|x: int|
                                heap.base_addr <= x < heap.limit@ && !heap.handed_out@.contains(x)
                                implies #[trigger] byte_of(m2, x) == 0 by {
                                if table <= x < table + 4096 {
                                    assert(heap.handed_out@.contains(x));
                                }
                                assert(byte_of(mem_alloc, x) == 0);
                            }
                            assert forall|x: int| #[trigger] old_handed.contains(x) implies heap.handed_out@.contains(x) by {
                                assert(handed_before.contains(x));
                            }
                            if !fresh {
                                assert forall|x: int| table <= x < table + 4096 implies on_path(old_mem, root, guest_paddr, 3, x) by {
                                    lemma_reaches_on_path(old_mem, root, guest_paddr, 3, table as int, level as int, above, x);
                                }
                            }
                            assert forall|x: int|
                                old_handed.contains(x) && !on_path(old_mem, root, guest_paddr, 3, x)
                                    implies #[trigger] byte_of(m2, x) == byte_of(old_mem, x) by {
                                assert(handed_before.contains(x));
                                assert(byte_of(mem_alloc, x) == byte_of(mem_before, x));
                            }
                            assert forall|x: int| nt.base <= x < nt.base + 4096 implies !#[trigger] old_handed.contains(x) by {
                                assert(!handed_before.contains(x));
                            }
                            lemma_store_word(mem_alloc, entry_addr as int, new_entry.0);
                            assert forall|x: int|
                                table <= x < table + 4096 && !in_walk_entry(table as int, guest_paddr, level as int, x)
                                    implies #[trigger] byte_of(mem_before, x) == byte_of(m2, x) by {
                                assert(handed_before.contains(x));
                                assert(byte_of(mem_alloc, x) == byte_of(mem_before, x));
                            }
                            lemma_links_frame(old_mem, mem_before, m2, old_handed, root, guest_paddr, 3, table as int, level as int, above);
                            lemma_entry_round_trip(nt.base, PTE_V);
                            assert(PTE_V < 1024) by (bit_vector);
                            assert forall|x: int| nb <= x < nb + 4096 implies #[trigger] byte_of(old_mem, x) == 0 by {
                                assert(!old_handed.contains(x));
                            }
                            assert(fresh_table(old_mem, m2, old_handed, nb as int, guest_paddr, level - 1));
                            lemma_links_extend(old_mem, m2, old_handed, root, guest_paddr, 3, table as int, level as int, above);
                            if !fresh {
                                lemma_reaches_gap(old_mem, root, guest_paddr, 3, table as int, level as int, above);
                                assert(entry_addr == gap);
                            }
                            assert forall|x: int| #[trigger] old_handed.contains(x) && !(gap <= x < gap + 8) implies byte_of(m2, x) == byte_of(old_mem, x) by {
                                assert(handed_before.contains(x));
                                assert(byte_of(mem_alloc, x) == byte_of(mem_before, x));
                                if entry_addr <= x < entry_addr + 8 {
                                    if fresh {
                                        assert(table <= x < table + 4096);
                                    }
                                }
                            }
                            crate::allocator::lemma_first_nonempty(fl_before, 12);
                            assert(heap.free_list@ == after_clean_alloc(fl_before, 12));
                            assert(blocks_fit(fl_before, 12, level as nat) == blocks_fit(heap.free_list@, 12, (level - 1) as nat));
                            let needed = tables_missing(old_mem, root, guest_paddr, 3);
                            crate::allocator::lemma_after_clean_allocs_step(old(heap).free_list@, 12, (needed - level) as nat);
                            above = above2;
                            fresh = true;
                        }
                        table = nt.base;
                    },
                }
            } else {
                proof {
                    assert(!fresh);
                    let e = entry.0;
                    assert(e == entry_at(old_mem, table as int, guest_paddr, level as int));
                    assert(path_ok(old_mem, old_handed, entry_paddr(e) as int, guest_paddr, level - 1, above.union(table_bytes(table as int))));
                    lemma_reaches_extend(mem@, root, guest_paddr, 3, table as int, level as int, above, above.union(table_bytes(table as int)));
                    lemma_links_extend(old_mem, mem@, old_handed, root, guest_paddr, 3, table as int, level as int, above);
                    above = above.union(table_bytes(table as int));
                }
                table = entry.paddr();
            }
            level = level - 1;
        }
        let t = Table { base: table };
        let leaf_addr = t.entry_by_addr(guest_paddr, 0);
        let entry = PageEntry(mem.read_u64(leaf_addr));
        proof {
            lemma_entry_index_bound(guest_paddr, 0);
            lemma_reaches_translate(mem@, root, guest_paddr, 3, table as int, 0, above);
            if fresh {
                assert forall|b: int| leaf_addr <= b < leaf_addr + 8 implies #[trigger] byte_of(mem@, b) == 0 by {
                    assert(table <= b < table + 4096);
                }
                crate::memory::lemma_zero_word(mem@, leaf_addr as int);
                assert(!entry_valid(0)) by (bit_vector);
            }
        }
        proof {
            // The page is not mapped yet: the leaf entry is no valid entry.
            assert(!entry_valid(entry.0));
        }
        let ghost mem_before = mem@;
        proof {
            assert(leaf_addr % 8 == 0) by (nonlinear_arith)
                requires
                    table % 4096 == 0,
                    leaf_addr == table + 8 * entry_index(guest_paddr, 0),
            ;
            if !fresh {
                assert(word_of(old_mem, leaf_addr as int) == entry.0);
            }
        }
        let leaf = PageEntry::new(host_paddr, flags | PTE_V | PTE_U);
        mem.write_u64(leaf_addr, leaf.0);
        proof {
            lemma_changes_then_store(old_mem, mem_before, old_handed, leaf_addr as int, leaf.0);
            lemma_translations_kept(old_mem, mem@, old_handed, self.table);
            let m2 = mem@;
            lemma_store_in_table(mem_before, table as int, leaf_addr as int, leaf.0);
            assert forall|x: int| #[trigger] above.contains(x) implies byte_of(mem_before, x) == byte_of(m2, x) by {
                assert(!(table <= x < table + 4096));
            }
            lemma_reaches_frame(mem_before, m2, root, guest_paddr, 3, table as int, 0, above);
            lemma_store_word(mem_before, leaf_addr as int, leaf.0);
            assert forall|x: int|
                table <= x < table + 4096 && !in_walk_entry(table as int, guest_paddr, 0, x)
                    implies #[trigger] byte_of(mem_before, x) == byte_of(m2, x) by {}
            lemma_links_frame(old_mem, mem_before, m2, old_handed, root, guest_paddr, 3, table as int, 0, above);
            if !fresh {
                lemma_reaches_gap(old_mem, root, guest_paddr, 3, table as int, 0, above);
                assert(leaf_addr == gap);
            }
            assert forall|x: int| #[trigger] old_handed.contains(x) && !(gap <= x < gap + 8) implies byte_of(m2, x) == byte_of(old_mem, x) by {
                if leaf_addr <= x < leaf_addr + 8 {
                    if fresh {
                        assert(table <= x < table + 4096);
                    }
                }
            }
            lemma_translations_avoiding(old_mem, m2, old_handed, self.table, gap);
            assert forall|g: u64|
                path_ok(old_mem, old_handed, root, g, 3, Set::empty()) && leaves_below_gap(old_mem, root, guest_paddr, g)
                    implies #[trigger] translate(m2, self.table, g) is None && translate(old_mem, self.table, g) is None by {
                lemma_gap_readers_unmapped(old_mem, m2, old_handed, self.table, guest_paddr, g);
            }
            if !fresh {
                assert forall|x: int| table <= x < table + 4096 implies on_path(old_mem, root, guest_paddr, 3, x) by {
                    lemma_reaches_on_path(old_mem, root, guest_paddr, 3, table as int, 0, above, x);
                }
            }
            lemma_reaches_translate(m2, root, guest_paddr, 3, table as int, 0, above);
            assert(PTE_V == 1 && PTE_U == 16) by (bit_vector);
            let f2 = flags | PTE_V | PTE_U;
            assert((((host_paddr >> 12) << 10) | (flags | 1u64 | 16u64)) & 1 != 0) by (bit_vector);
            assert(entry_at(m2, table as int, guest_paddr, 0) == leaf.0);
            assert forall|x: int|
                heap.base_addr <= x < heap.limit@ && !heap.handed_out@.contains(x)
                implies #[trigger] byte_of(m2, x) == 0 by {
                if table <= x < table + 4096 {
                    assert(heap.handed_out@.contains(x));
                }
            }
            let handed = heap.handed_out@;
            assert forall|m3: Map<u64, u8>|
                (forall|x: int| #[trigger] handed.contains(x) ==> byte_of(m3, x) == byte_of(m2, x))
                    implies #[trigger] translate(m3, self.table, guest_paddr) == translate(m2, self.table, guest_paddr) by {
                assert forall|x: int| #[trigger] above.contains(x) implies byte_of(m2, x) == byte_of(m3, x) by {
                    assert(handed.contains(x));
                }
                lemma_reaches_frame(m2, m3, root, guest_paddr, 3, table as int, 0, above);
                lemma_reaches_translate(m3, root, guest_paddr, 3, table as int, 0, above);
                assert forall|x: int| table <= x < table + 4096 implies #[trigger] byte_of(m2, x) == byte_of(m3, x) by {
                    assert(handed.contains(x));
                }
                lemma_entry_frame(m2, m3, table as int, guest_paddr, 0);
            }
        }
        Ok(())
    }
}

/// The mode field of `hgatp` for the Sv48x4 format.
pub const HGATP_MODE_SV48X4: u64 = 9;

/// The guest's page table.  A null table has address 0.
#[derive(Debug, Clone, Copy, PartialEq, Eq)]
pub struct GuestPageTable {
    pub table: u64,
}

/// The value of `hgatp` for the root table at `table`: the Sv48x4 mode in
/// bits 60..64 and the table's physical page number.
pub open spec fn hgatp_value(table: u64) -> u64 {
    (9u64 << 60) | (table >> 12)
}

impl GuestPageTable {
    /// The page table without a root table.
    pub fn empty() -> (r: GuestPageTable)
        ensures
            r.table == 0,
    {
        GuestPageTable { table: 0 }
    }

    /// The value of `hgatp` that selects this table.
    pub fn hgatp(&self) -> (r: u64)
        ensures
            r == hgatp_value(self.table),
    {
        // Page-based 50-bit virtual addressing (Sv48x4).
        let mode_field = HGATP_MODE_SV48X4 << 60;
        let table_ppn = self.table >> PPN_SHIFT;
        mode_field | table_ppn
    }
}

/// The `hgatp` value holds mode 9 in its top four bits and, below them, the
/// root table's page number, for any table below 2^56.
pub proof fn lemma_hgatp_fields(table: u64)
    requires
        table < 0x0100_0000_0000_0000,
    ensures
        hgatp_value(table) >> 60 == 9,
        hgatp_value(table) & 0x0fff_ffff_ffff_ffff == table >> 12,
{
    assert(((9u64 << 60) | (table >> 12)) >> 60 == 9) by (bit_vector)
        requires
            table < 0x0100_0000_0000_0000,
    ;
    assert(((9u64 << 60) | (table >> 12)) & 0x0fff_ffff_ffff_ffff == table >> 12) by (bit_vector)
        requires
            table < 0x0100_0000_0000_0000,
    ;
}

} // verus!
