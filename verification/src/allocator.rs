//! The buddy heap allocator.
//!
//! `free_list[i]` is the head of the list of free blocks of `2^i` bytes; `0`
//! stands for the null pointer.  Allocation takes the next block of a list
//! from the first word of the block it hands out; freeing reads the links of
//! a list as single bytes.

use crate::memory::{byte_of, lemma_store_zero_word, lemma_zero_word, store_word, word_of, Memory};
use vstd::arithmetic::power2::{
    lemma2_to64, lemma2_to64_rest, lemma_pow2_pos, lemma_pow2_strictly_increases,
    lemma_pow2_unfold, pow2,
};
use vstd::bits::{lemma_usize_pow2_no_overflow, lemma_usize_shl_is_mul, lemma_usize_shr_is_div};
use vstd::arithmetic::power2::lemma_pow2_adds;
use vstd::arithmetic::div_mod::lemma_div_by_multiple;
use vstd::prelude::*;

verus! {

/// The heap holds at most `2^HEAP_MAX_CAPACITY` bytes.
pub const HEAP_MAX_CAPACITY: usize = 30;

/// Number of free lists of a heap.
pub const FREE_LIST_LENGTH: usize = HEAP_MAX_CAPACITY;

/// Size of the smallest block that the heap hands out.
pub const MIN_BLOCK_SIZE: usize = 8;

/// The buddy heap: one free list per block size.
pub struct Heap {
    /// Heads of the free lists; `free_list[i]` holds blocks of `2^i` bytes.
    pub free_list: Vec<usize>,
    /// Start of the heap region.
    pub base_addr: usize,
    /// End of the heap region (exclusive).
    pub limit: Ghost<int>,
    /// Addresses of the bytes that were handed out.
    pub handed_out: Ghost<Set<int>>,
}

/// Size in bytes of a block of order `k`.
pub open spec fn block_size(k: int) -> int {
    pow2(k as nat) as int
}

/// `[a, a + n)` and `[b, b + m)` do not overlap.
pub open spec fn disjoint_ranges(a: int, n: int, b: int, m: int) -> bool {
    a + n <= b || b + m <= a
}

/// The smallest `k` at or after `from` with `2^k >= size`, or the bit width
/// of `usize` when there is none below it.
pub open spec fn order_from(size: int, from: int) -> int
    decreases usize::BITS - from,
{
    if from >= usize::BITS {
        usize::BITS as int
    } else if block_size(from) >= size {
        from
    } else {
        order_from(size, from + 1)
    }
}

/// Order of the smallest block that holds `size` bytes.
pub open spec fn order_of(size: int) -> int {
    order_from(size, 0)
}

/// Order of the block that the heap hands out for a request of `size` bytes.
pub open spec fn request_order(size: int) -> int {
    order_of(if size < MIN_BLOCK_SIZE { MIN_BLOCK_SIZE as int } else { size })
}

/// Bytes of the block of order `k` at `a`.
pub open spec fn block_bytes(a: int, k: int) -> Set<int> {
    Set::new(|x: int| a <= x < a + block_size(k))
}

/// The byte at `a` lies in the first word of a buddy `n + 2^j`, for `j` in
/// `lo .. hi`, whose list `fl[j]` was not empty.
pub open spec fn in_dropped_buddy_word(fl: Seq<usize>, n: int, lo: int, hi: int, a: int) -> bool
    decreases hi - lo,
{
    if lo >= hi {
        false
    } else {
        (fl[lo] != 0 && n + block_size(lo) <= a < n + block_size(lo) + 8)
            || in_dropped_buddy_word(fl, n, lo + 1, hi, a)
    }
}

/// The first list at or after `from` that is not empty (`FREE_LIST_LENGTH` if
/// there is none).
pub open spec fn first_nonempty(fl: Seq<usize>, from: int) -> int
    decreases FREE_LIST_LENGTH - from,
{
    if from >= FREE_LIST_LENGTH {
        FREE_LIST_LENGTH as int
    } else if fl[from] != 0 {
        from
    } else {
        first_nonempty(fl, from + 1)
    }
}

/// The free lists after block `fl[f]` was split down to order `bf`: list `f`
/// is emptied and each empty list `j` in `bf .. f` receives the buddy
/// `fl[f] + 2^j`.
pub open spec fn lists_after_split(fl: Seq<usize>, f: int, bf: int) -> Seq<usize> {
    Seq::new(
        fl.len(),
        |j: int|
            if j == f {
                0usize
            } else if bf <= j < f && fl[j] == 0 {
                (fl[f] + block_size(j)) as usize
            } else {
                fl[j]
            },
    )
}


/// The free lists after a block of order `bf` was handed out by a heap whose
/// free memory reads zero (so that every link read back is null): the head
/// of list `bf` is taken, leaving the list empty, or else the first larger
/// block is split ([`lists_after_split`]).
pub open spec fn after_clean_alloc(fl: Seq<usize>, bf: int) -> Seq<usize> {
    let f = first_nonempty(fl, bf);
    if f == bf {
        fl.update(bf, 0usize)
    } else {
        lists_after_split(fl, f, bf)
    }
}

/// The heap with free lists `fl`, and free memory that reads zero, hands out
/// `k` blocks of order `bf`, one after the other.
pub open spec fn blocks_fit(fl: Seq<usize>, bf: int, k: nat) -> bool
    decreases k,
{
    if k == 0 {
        true
    } else {
        first_nonempty(fl, bf) < FREE_LIST_LENGTH && blocks_fit(after_clean_alloc(fl, bf), bf, (k - 1) as nat)
    }
}

/// The free lists after `k` blocks of order `bf` were handed out, as
/// [`blocks_fit`] takes them.
pub open spec fn after_clean_allocs(fl: Seq<usize>, bf: int, k: nat) -> Seq<usize>
    decreases k,
{
    if k == 0 {
        fl
    } else {
        after_clean_allocs(after_clean_alloc(fl, bf), bf, (k - 1) as nat)
    }
}

impl Heap {
    /// A heap with every list empty.
    pub fn empty() -> (h: Heap)
        ensures
            h.free_list@ == Seq::new(FREE_LIST_LENGTH as nat, |i: int| 0usize),
            h.base_addr == 0,
            h.wf(),
            h.handed_out@ == Set::<int>::empty(),
    {
        let mut free_list: Vec<usize> = Vec::new();
        let mut i: usize = 0;
        while i < FREE_LIST_LENGTH
            invariant
                i <= FREE_LIST_LENGTH,
                free_list@ == Seq::new(i as nat, |k: int| 0usize),
            decreases FREE_LIST_LENGTH - i,
        {
            free_list.push(0);
            i = i + 1;
        }
        Heap { free_list, base_addr: 0, limit: Ghost(0), handed_out: Ghost(Set::empty()) }
    }

    /// No free block wraps around the address space.
    pub open spec fn blocks_in_range(&self) -> bool {
        forall|i: int|
            0 <= i < FREE_LIST_LENGTH && #[trigger] self.free_list@[i] != 0 ==> self.free_list@[i]
                + block_size(i) <= usize::MAX
    }

    /// The free block of order `i` lies in the heap and was not handed out.
    pub open spec fn free_block_ok(&self, i: int) -> bool {
        let a = self.free_list@[i] as int;
        &&& self.base_addr <= a
        &&& (a - self.base_addr) % block_size(i) == 0
        &&& a + block_size(i) <= self.limit@
        &&& forall|x: int| a <= x < a + block_size(i) ==> !#[trigger] self.handed_out@.contains(x)
    }

    /// Well-formedness: the free blocks lie in the heap, are disjoint from one
    /// another and from the bytes handed out.
    pub open spec fn wf(&self) -> bool {
        &&& self.free_list@.len() == FREE_LIST_LENGTH
        &&& self.base_addr <= self.limit@ <= usize::MAX
        &&& forall|x: int| #[trigger]
            self.handed_out@.contains(x) ==> self.base_addr <= x < self.limit@
        &&& forall|i: int|
            0 <= i < FREE_LIST_LENGTH && #[trigger] self.free_list@[i] != 0 ==> self.free_block_ok(
                i,
            )
        &&& forall|i: int, j: int|
            0 <= i < FREE_LIST_LENGTH && 0 <= j < FREE_LIST_LENGTH && i != j
                && #[trigger] self.free_list@[i] != 0 && #[trigger] self.free_list@[j] != 0
                ==> disjoint_ranges(
                self.free_list@[i] as int,
                block_size(i),
                self.free_list@[j] as int,
                block_size(j),
            )
    }

    /// Every byte of the heap that was not handed out reads zero.
    pub open spec fn memory_clean(&self, mem: Map<u64, u8>) -> bool {
        forall|x: int|
            self.base_addr <= x < self.limit@ && !self.handed_out@.contains(x) ==> #[trigger] byte_of(
                mem,
                x,
            ) == 0
    }
}

pub proof fn lemma_block_size_facts(k: int)
    requires
        0 <= k < 64,
    ensures
        block_size(k) >= 1,
        k >= 1 ==> block_size(k) == 2 * block_size(k - 1),
        k >= 3 ==> block_size(k) >= 8,
        block_size(k) <= 0x8000_0000_0000_0000,
{
    lemma_pow2_pos(k as nat);
    if k >= 1 {
        lemma_pow2_unfold(k as nat);
    }
    lemma2_to64();
    if k > 3 {
        lemma_pow2_strictly_increases(3, k as nat);
    }
    if k < 63 {
        lemma_pow2_strictly_increases(k as nat, 63);
    }
    lemma2_to64_rest();
}

/// An offset aligned to `2^f` is aligned to every smaller power of two, and
/// stays so when `2^j` is added.
pub proof fn lemma_aligned_offset(x: int, j: int, f: int)
    requires
        0 <= j <= f,
        x % block_size(f) == 0,
    ensures
        x % block_size(j) == 0,
        (x + block_size(j)) % block_size(j) == 0,
{
    lemma_pow2_adds((f - j) as nat, j as nat);
    lemma_pow2_pos(j as nat);
    lemma_pow2_pos(f as nat);
    let q = x / block_size(f);
    vstd::arithmetic::div_mod::lemma_fundamental_div_mod(x, block_size(f));
    assert(x == q * block_size(f));
    let c = q * block_size(f - j);
    vstd::arithmetic::mul::lemma_mul_is_associative(q, block_size(f - j), block_size(j));
    assert(x == c * block_size(j));
    vstd::arithmetic::div_mod::lemma_mod_multiples_basic(c, block_size(j));
    vstd::arithmetic::mul::lemma_mul_is_distributive_add_other_way(block_size(j), c, 1);
    vstd::arithmetic::div_mod::lemma_mod_multiples_basic(c + 1, block_size(j));
}

pub proof fn lemma_block_size_monotone(a: int, b: int)
    requires
        0 <= a <= b,
    ensures
        block_size(a) <= block_size(b),
        a < b ==> block_size(a) < block_size(b),
{
    if a < b {
        lemma_pow2_strictly_increases(a as nat, b as nat);
    }
}

/// The order of the smallest block that holds `size` bytes, computed as
/// `size.next_power_of_two().trailing_zeros()`.
pub fn order_for(size: usize) -> (k: usize)
    ensures
        k == order_of(size as int),
        k <= usize::BITS,
{
    let bits = usize::BITS as usize;
    let mut k: usize = 0;
    while k < bits && (1usize << k) < size
        invariant
            bits == usize::BITS,
            k <= bits,
            order_from(size as int, k as int) == order_of(size as int),
        decreases bits - k,
    {
        proof {
            lemma_usize_pow2_no_overflow(k as nat);
            lemma_usize_shl_is_mul(1, k);
        }
        k = k + 1;
    }
    proof {
        if k < bits {
            lemma_usize_pow2_no_overflow(k as nat);
            lemma_usize_shl_is_mul(1, k);
        }
    }
    k
}

/// Splits the block at `start` into its two halves of `size` bytes each.
pub fn split_node(start_addr: usize, size: usize) -> (r: (usize, usize))
    requires
        start_addr + size <= usize::MAX,
    ensures
        r == (start_addr, (start_addr + size) as usize),
{
    let half_size = size;
    let first_addr = start_addr;
    let second_addr = first_addr + half_size;
    (first_addr, second_addr)
}

/// Splitting the free block of order `f` down to order `bf` keeps the heap
/// well formed once the low block of order `bf` is handed out.
proof fn lemma_split_keeps_wf(h: Heap, h2: Heap, f: int, bf: int)
    requires
        h.wf(),
        3 <= bf < f < FREE_LIST_LENGTH,
        h.free_list@[f] != 0,
        h2.free_list@ == lists_after_split(h.free_list@, f, bf),
        h2.base_addr == h.base_addr,
        h2.limit@ == h.limit@,
        h2.handed_out@ == h.handed_out@.union(block_bytes(h.free_list@[f] as int, bf)),
    ensures
        h2.wf(),
{
    let fl = h.free_list@;
    let fl2 = h2.free_list@;
    let n = fl[f] as int;
    assert(h.free_block_ok(f));
    lemma_block_size_monotone(bf, f);
    assert forall|x: int| #[trigger] h2.handed_out@.contains(x) implies h2.base_addr <= x
        < h2.limit@ by {
        if !h.handed_out@.contains(x) {
            assert(block_bytes(n, bf).contains(x));
        }
    }
    assert forall|j: int| 0 <= j < FREE_LIST_LENGTH && #[trigger] fl2[j] != 0 implies h2.free_block_ok(
        j,
    ) by {
        if bf <= j < f && fl[j] == 0 {
            lemma_block_size_facts(j);
            lemma_block_size_facts(j + 1);
            lemma_block_size_monotone(j + 1, f);
            lemma_block_size_monotone(bf, j);
            assert(fl2[j] == n + block_size(j));
            lemma_aligned_offset(n - h.base_addr, j, f);
            assert forall|x: int| fl2[j] <= x < fl2[j] + block_size(j) implies !#[trigger] h2.handed_out@.contains(
                x,
            ) by {
                assert(n <= x < n + block_size(f));
                assert(!h.handed_out@.contains(x));
                assert(!block_bytes(n, bf).contains(x));
            }
        } else {
            assert(j != f);
            assert(fl2[j] == fl[j]);
            assert(h.free_block_ok(j));
            assert(disjoint_ranges(fl[j] as int, block_size(j), n, block_size(f)));
            assert forall|x: int| fl2[j] <= x < fl2[j] + block_size(j) implies !#[trigger] h2.handed_out@.contains(
                x,
            ) by {
                assert(!h.handed_out@.contains(x));
                assert(!block_bytes(n, bf).contains(x));
            }
        }
    }
    assert forall|i: int, j: int|
        0 <= i < FREE_LIST_LENGTH && 0 <= j < FREE_LIST_LENGTH && i != j && #[trigger] fl2[i] != 0
            && #[trigger] fl2[j] != 0 implies disjoint_ranges(
        fl2[i] as int,
        block_size(i),
        fl2[j] as int,
        block_size(j),
    ) by {
        let new_i = bf <= i < f && fl[i] == 0;
        let new_j = bf <= j < f && fl[j] == 0;
        if new_i {
            lemma_block_size_facts(i + 1);
            lemma_block_size_monotone(i + 1, f);
        }
        if new_j {
            lemma_block_size_facts(j + 1);
            lemma_block_size_monotone(j + 1, f);
        }
        if new_i && new_j {
            if i < j {
                lemma_block_size_monotone(i + 1, j);
            } else {
                lemma_block_size_monotone(j + 1, i);
            }
        } else if new_i {
            assert(j != f);
            assert(disjoint_ranges(fl[j] as int, block_size(j), n, block_size(f)));
        } else if new_j {
            assert(i != f);
            assert(disjoint_ranges(fl[i] as int, block_size(i), n, block_size(f)));
        } else {
            assert(fl2[i] == fl[i] && fl2[j] == fl[j]);
        }
    }
}

/// The heap with free lists `fl` has a block for a request of `size` bytes:
/// a list of the order that fits it, or of a larger one, is not empty.
pub open spec fn has_block_for(fl: Seq<usize>, size: int) -> bool {
    request_order(size) < FREE_LIST_LENGTH && first_nonempty(fl, request_order(size)) < FREE_LIST_LENGTH
}

impl Heap {
    /// Hands out a block of at least `size` bytes (and of at least 8 bytes):
    /// the free block of the smallest order that fits, split down from the
    /// first non-empty list of that order or above.  The heap must have such
    /// a block ([`Heap::has_block`] tells).
    pub fn allocate(&mut self, mem: &mut Memory, size: usize) -> (r: usize)
        requires
            old(self).free_list@.len() == FREE_LIST_LENGTH,
            old(self).blocks_in_range(),
            has_block_for(old(self).free_list@, size as int),
        ensures
            final(self).base_addr == old(self).base_addr,
            final(self).limit@ == old(self).limit@,
            ({
                let fl = old(self).free_list@;
                let bf = request_order(size as int);
                let f = first_nonempty(fl, bf);
                &&& r == fl[f]
                &&& f == bf ==> {
                    &&& final(self).free_list@ == fl.update(
                        f,
                        word_of(old(mem)@, fl[f] as int) as usize,
                    )
                    &&& final(mem)@ == old(mem)@
                }
                &&& f > bf ==> {
                    &&& final(self).free_list@ == lists_after_split(fl, f, bf)
                    &&& forall|a: int| #[trigger]
                        byte_of(final(mem)@, a) == if in_dropped_buddy_word(
                            fl,
                            fl[f] as int,
                            bf,
                            f,
                            a,
                        ) {
                            0
                        } else {
                            byte_of(old(mem)@, a)
                        }
                }
            }),
            old(self).wf() && old(self).memory_clean(old(mem)@) ==> {
                &&& final(self).wf()
                &&& final(self).memory_clean(final(mem)@)
                &&& {
                    let a = r;
                    let k = request_order(size as int);
                    &&& block_size(k) >= size
                    &&& old(self).base_addr <= a
                    &&& (a - old(self).base_addr) % block_size(k) == 0
                    &&& a + block_size(k) <= old(self).limit@
                    &&& forall|x: int|
                        a <= x < a + block_size(k) ==> !#[trigger] old(self).handed_out@.contains(x)
                    &&& final(self).handed_out@ == old(self).handed_out@.union(block_bytes(a as int, k))
                }
                &&& forall|x: int| #[trigger]
                    old(self).handed_out@.contains(x) ==> byte_of(final(mem)@, x) == byte_of(
                        old(mem)@,
                        x,
                    )
            },
    {
        let ghost old_mem = mem@;
        let ghost fl = self.free_list@;
        let mut wanted = size;
        // Minimal size is 8.
        if wanted < MIN_BLOCK_SIZE {
            wanted = MIN_BLOCK_SIZE;
        }
        let best_fit_id = order_for(wanted);
        let ghost bf = best_fit_id as int;
        proof {
            lemma_order_of_facts(wanted as int);
        }
        let mut found_node_index: usize = best_fit_id;
        while found_node_index < FREE_LIST_LENGTH
            invariant
                self.free_list@ == fl,
                mem@ == old_mem,
                self.base_addr == old(self).base_addr,
                self.limit@ == old(self).limit@,
                self.handed_out@ == old(self).handed_out@,
                fl == old(self).free_list@,
                old_mem == old(mem)@,
                fl.len() == FREE_LIST_LENGTH,
                old(self).blocks_in_range(),
                bf == best_fit_id,
                bf == request_order(size as int),
                wanted as int == if size < MIN_BLOCK_SIZE {
                    MIN_BLOCK_SIZE as int
                } else {
                    size as int
                },
                3 <= bf <= usize::BITS,
                bf < usize::BITS ==> block_size(bf) >= wanted,
                bf <= found_node_index,
                first_nonempty(fl, found_node_index as int) == first_nonempty(fl, bf),
                has_block_for(fl, size as int),
            decreases FREE_LIST_LENGTH - found_node_index,
        {
            proof {
                lemma_usize_pow2_no_overflow(found_node_index as nat);
                lemma_usize_shl_is_mul(1, found_node_index);
                lemma_block_size_monotone(bf, found_node_index as int);
            }
            if (1usize << found_node_index) >= wanted {
                let mut node = self.free_list[found_node_index];
                if node != 0 {
                    let splits = found_node_index - best_fit_id;
                    if splits > 0 {
                        let ghost f = found_node_index as int;
                        let ghost n = node as int;
                        assert(f == first_nonempty(fl, bf));
                        self.free_list.set(found_node_index, 0);
                        let mut index: usize = 1;
                        while index <= splits
                            invariant
                                1 <= index <= splits + 1,
                                splits == f - bf,
                                found_node_index == f,
                                3 <= bf < f < FREE_LIST_LENGTH,
                                node == n,
                                n == fl[f],
                                n + block_size(f) <= usize::MAX,
                                fl.len() == FREE_LIST_LENGTH,
                                self.free_list@ == Seq::new(
                                    fl.len(),
                                    |j: int|
                                        if j == f {
                                            0usize
                                        } else if f - index < j < f && fl[j] == 0 {
                                            (n + block_size(j)) as usize
                                        } else {
                                            fl[j]
                                        },
                                ),
                                forall|a: int| #[trigger]
                                    byte_of(mem@, a) == if in_dropped_buddy_word(
                                        fl,
                                        n,
                                        f - index + 1,
                                        f,
                                        a,
                                    ) {
                                        0
                                    } else {
                                        byte_of(old_mem, a)
                                    },
                                self.base_addr == old(self).base_addr,
                                self.limit@ == old(self).limit@,
                                self.handed_out@ == old(self).handed_out@,
                                fl == old(self).free_list@,
                                old_mem == old(mem)@,
                                bf == request_order(size as int),
                                bf == best_fit_id,
                                f == first_nonempty(fl, bf),
                                block_size(bf) >= size,
                            decreases splits + 1 - index,
                        {
                            let ghost j = f - index;
                            proof {
                                lemma_usize_pow2_no_overflow(f as nat);
                                lemma_usize_shl_is_mul(1, found_node_index);
                                lemma_usize_shr_is_div((1usize << found_node_index), index);
                                lemma_pow2_adds(j as nat, index as nat);
                                lemma_pow2_pos(index as nat);
                                lemma_div_by_multiple(block_size(j), block_size(index as int));
                                lemma_block_size_facts(j);
                                lemma_block_size_facts(j + 1);
                                lemma_block_size_facts(f);
                                lemma_block_size_monotone(j + 1, f);
                            }
                            let size_of_node = (1usize << found_node_index) >> index;
                            assert(size_of_node == block_size(j));
                            let (next_node, second_addr) = split_node(node, size_of_node);
                            let buddy_ptr = second_addr;
                            let same_size_ptr = self.free_list[found_node_index - index];
                            let ghost mem_before = mem@;
                            if same_size_ptr == 0 {
                                self.free_list.set(found_node_index - index, buddy_ptr);
                            } else {
                                mem.write_u64(buddy_ptr as u64, 0);
                                proof {
                                    lemma_store_zero_word(mem_before, buddy_ptr as int);
                                }
                            }
                            proof {
                                assert forall|a: int| #[trigger]
                                    byte_of(mem@, a) == if in_dropped_buddy_word(
                                        fl,
                                        n,
                                        f - (index + 1) + 1,
                                        f,
                                        a,
                                    ) {
                                        0
                                    } else {
                                        byte_of(old_mem, a)
                                    } by {
                                    assert(f - (index + 1) + 1 == j);
                                    assert(byte_of(mem_before, a) == if in_dropped_buddy_word(
                                        fl,
                                        n,
                                        j + 1,
                                        f,
                                        a,
                                    ) {
                                        0
                                    } else {
                                        byte_of(old_mem, a)
                                    });
                                }
                                assert(self.free_list@ =~= Seq::new(
                                    fl.len(),
                                    |k: int|
                                        if k == f {
                                            0usize
                                        } else if f - (index + 1) < k < f && fl[k] == 0 {
                                            (n + block_size(k)) as usize
                                        } else {
                                            fl[k]
                                        },
                                ));
                            }
                            node = next_node;
                            index = index + 1;
                        }
                        proof {
                            assert(self.free_list@ =~= lists_after_split(fl, f, bf));
                            assert(f == first_nonempty(fl, bf));
                            let ghost h_old = *old(self);
                            if old(self).wf() && old(self).memory_clean(old_mem) {
                                let h2 = Heap {
                                    free_list: self.free_list,
                                    base_addr: self.base_addr,
                                    limit: self.limit,
                                    handed_out: Ghost(
                                        old(self).handed_out@.union(block_bytes(n, bf)),
                                    ),
                                };
                                lemma_split_keeps_wf(*old(self), h2, f, bf);
                            }
                        }
                        self.handed_out = Ghost(old(self).handed_out@.union(block_bytes(n, bf)));
                        proof {
                            assert(bf < FREE_LIST_LENGTH);
                            assert(f < FREE_LIST_LENGTH);
                            assert(f == first_nonempty(fl, bf));
                            assert(node == fl[f]);
                            assert(self.free_list@ == lists_after_split(fl, f, bf));
                            if old(self).wf() && old(self).memory_clean(old_mem) {
                                assert(old(self).free_block_ok(f));
                                lemma_block_size_monotone(bf, f);
                                lemma_aligned_offset(n - old(self).base_addr, bf, f);
                                assert forall|x: int|
                                    self.base_addr <= x < self.limit@
                                        && !self.handed_out@.contains(x) implies #[trigger] byte_of(
                                    mem@,
                                    x,
                                ) == 0 by {
                                    if !in_dropped_buddy_word(fl, n, bf, f, x) {
                                        assert(!old(self).handed_out@.contains(x));
                                    }
                                }
                                assert forall|x: int| #[trigger]
                                    old(self).handed_out@.contains(x) implies byte_of(mem@, x)
                                    == byte_of(old_mem, x) by {
                                    if in_dropped_buddy_word(fl, n, bf, f, x) {
                                        lemma_dropped_word_in_block(fl, n, bf, f, x);
                                    }
                                }
                            }
                        }
                        return node;
                    } else {
                        proof {
                            lemma_block_size_facts(found_node_index as int);
                        }
                        let next = mem.read_u64(node as u64);
                        self.free_list.set(found_node_index, next as usize);
                        let ghost f = found_node_index as int;
                        let ghost n = node as int;
                        self.handed_out = Ghost(old(self).handed_out@.union(block_bytes(n, bf)));
                        proof {
                            assert(f == first_nonempty(fl, bf));
                            assert(bf < FREE_LIST_LENGTH);
                            
                            assert(node == fl[f]);
                            assert(f == bf);
                            assert(self.free_list@ == fl.update(f, word_of(old_mem, fl[f] as int) as usize));
                            assert(mem@ == old_mem);
                            if old(self).wf() && old(self).memory_clean(old_mem) {
                                assert(old(self).free_block_ok(f));
                                assert forall|b: int| n <= b < n + 8 implies #[trigger] byte_of(
                                    old_mem,
                                    b,
                                ) == 0 by {
                                    assert(!old(self).handed_out@.contains(b));
                                }
                                lemma_zero_word(old_mem, n);
                                assert(self.free_list@ =~= fl.update(f, 0usize));
                                assert forall|i: int|
                                    0 <= i < FREE_LIST_LENGTH && #[trigger] self.free_list@[i]
                                        != 0 implies self.free_block_ok(i) by {
                                    assert(old(self).free_block_ok(i));
                                    assert(disjoint_ranges(
                                        fl[i] as int,
                                        block_size(i),
                                        n,
                                        block_size(f),
                                    ));
                                    assert forall|x: int|
                                        fl[i] <= x < fl[i] + block_size(i) implies !#[trigger] self.handed_out@.contains(
                                        x,
                                    ) by {
                                        assert(!old(self).handed_out@.contains(x));
                                    }
                                }
                                assert forall|x: int| #[trigger]
                                    self.handed_out@.contains(x) implies self.base_addr <= x
                                    < self.limit@ by {
                                    if !old(self).handed_out@.contains(x) {
                                        assert(block_bytes(n, bf).contains(x));
                                    }
                                }
                                assert forall|i: int, j: int|
                                    0 <= i < FREE_LIST_LENGTH && 0 <= j < FREE_LIST_LENGTH && i
                                        != j && #[trigger] self.free_list@[i] != 0
                                        && #[trigger] self.free_list@[j] != 0 implies disjoint_ranges(
                                    self.free_list@[i] as int,
                                    block_size(i),
                                    self.free_list@[j] as int,
                                    block_size(j),
                                ) by {
                                    assert(fl[i] != 0 && fl[j] != 0);
                                }
                            }
                        }
                        return node;
                    }
                }
            }
            proof {
                assert(self.free_list@[found_node_index as int] == 0 || block_size(
                    found_node_index as int,
                ) < wanted);
            }
            found_node_index = found_node_index + 1;
        }
        // Not reached: the heap has a block of the order or above.
        0
    }

    /// Whether the heap has a block for a request of `size` bytes, as
    /// [`Heap::allocate`] needs.
    pub fn has_block(&self, size: usize) -> (r: bool)
        requires
            self.free_list@.len() == FREE_LIST_LENGTH,
        ensures
            r == has_block_for(self.free_list@, size as int),
    {
        let wanted = if size < MIN_BLOCK_SIZE { MIN_BLOCK_SIZE } else { size };
        let bf = order_for(wanted);
        let mut i = bf;
        while i < FREE_LIST_LENGTH
            invariant
                bf == request_order(size as int),
                bf <= i,
                self.free_list@.len() == FREE_LIST_LENGTH,
                first_nonempty(self.free_list@, i as int) == first_nonempty(self.free_list@, bf as int),
            decreases FREE_LIST_LENGTH - i,
        {
            if self.free_list[i] != 0 {
                return true;
            }
            i = i + 1;
        }
        false
    }
}

/// The order `k` below `FREE_LIST_LENGTH` with `2^(k + 1) == size`, if any.
pub open spec fn heap_order(size: int) -> Option<int> {
    if exists|k: int| 0 <= k < FREE_LIST_LENGTH && #[trigger] block_size(k + 1) == size {
        Some(choose|k: int| 0 <= k < FREE_LIST_LENGTH && #[trigger] block_size(k + 1) == size)
    } else {
        None
    }
}

/// `len` rounded up to a whole number of 4096-byte pages.
pub open spec fn page_round_up(len: int) -> int {
    ((len + 4095) / 4096) * 4096
}

/// The list that a heap of `size` bytes goes on at set-up: the order `k`
/// with `size == 2^(k + 1)`, if it is below `FREE_LIST_LENGTH`.
pub fn heap_order_of(size: usize) -> (r: Option<usize>)
    ensures
        r is None <==> heap_order(size as int) is None,
        r matches Some(k) ==> heap_order(size as int) == Some(k as int) && k < FREE_LIST_LENGTH,
{
    let mut heap_node_index: Option<usize> = None;
    // Find address for first full-heap block.
    let mut node_index: usize = 0;
    while node_index <= FREE_LIST_LENGTH && heap_node_index.is_none()
        invariant
            node_index <= FREE_LIST_LENGTH + 1,
            heap_node_index matches Some(k) ==> k < node_index && block_size(k + 1) == size,
            forall|k: int|
                0 <= k < node_index && (heap_node_index matches Some(c) ==> k < c)
                    ==> #[trigger] block_size(k + 1) != size,
        decreases FREE_LIST_LENGTH + 1 - node_index,
    {
        proof {
            lemma_usize_pow2_no_overflow((node_index + 1) as nat);
            lemma_usize_shl_is_mul(1, (node_index + 1) as usize);
        }
        if (1usize << (node_index + 1)) == size {
            heap_node_index = Some(node_index);
        }
        node_index = node_index + 1;
    }
    proof {
        if let Some(k) = heap_node_index {
            if k < FREE_LIST_LENGTH {
                assert(exists|k: int| 0 <= k < FREE_LIST_LENGTH && #[trigger] block_size(k + 1) == size);
                let c = choose|c: int| 0 <= c < FREE_LIST_LENGTH && #[trigger] block_size(c + 1) == size;
                if c < k {
                } else if c > k {
                    lemma_block_size_monotone(k + 1, c + 1);
                }
                assert(c == k);
            } else if exists|c: int| 0 <= c < FREE_LIST_LENGTH && #[trigger] block_size(c + 1) == size {
                let c = choose|c: int| 0 <= c < FREE_LIST_LENGTH && #[trigger] block_size(c + 1) == size;
                lemma_block_size_monotone(c + 1, k + 1);
            }
        }
    }
    match heap_node_index {
        Some(k) => {
            if k < FREE_LIST_LENGTH {
                Some(k)
            } else {
                None
            }
        },
        None => None,
    }
}

impl Heap {
    /// Sets the heap up over `[heap_start, heap_end)`: the whole region becomes
    /// one free block on list `k`, where the region holds `2^(k + 1)` bytes
    /// ([`heap_order_of`] finds `k`).
    pub fn init(&mut self, heap_start: usize, heap_end: usize)
        requires
            heap_start <= heap_end,
            old(self).free_list@.len() == FREE_LIST_LENGTH,
            heap_order(heap_end - heap_start) is Some,
        ensures
            final(self).base_addr == heap_start,
            final(self).limit@ == heap_end,
            final(self).handed_out@ == Set::<int>::empty(),
            final(self).free_list@ == old(self).free_list@.update(
                heap_order(heap_end - heap_start)->0,
                heap_start,
            ),
            (forall|i: int| 0 <= i < FREE_LIST_LENGTH ==> #[trigger] old(self).free_list@[i] == 0)
                ==> final(self).wf(),
    {
        self.base_addr = heap_start;
        self.limit = Ghost(heap_end as int);
        self.handed_out = Ghost(Set::empty());
        let size_of_heap = heap_end - heap_start;
        if let Some(k) = heap_order_of(size_of_heap) {
            self.free_list.set(k, heap_start);
            proof {
                lemma_block_size_facts(k as int + 1);
                assert(exists|c: int| 0 <= c < FREE_LIST_LENGTH && #[trigger] block_size(c + 1) == size_of_heap);
                assert(block_size(k as int + 1) == size_of_heap);
                if forall|i: int| 0 <= i < FREE_LIST_LENGTH ==> #[trigger] old(self).free_list@[i] == 0 {
                    assert forall|i: int|
                        0 <= i < FREE_LIST_LENGTH && #[trigger] self.free_list@[i] != 0 implies self.free_block_ok(i) by {
                        assert(i == k);
                        assert(self.free_list@[i] == heap_start);
                        assert(self.base_addr == heap_start);
                        assert(self.limit@ == heap_end);
                        assert(block_size(i) * 2 == heap_end - heap_start);
                        lemma_block_size_facts(i);
                        vstd::arithmetic::div_mod::lemma_small_mod(0, block_size(i) as nat);
                        assert((heap_start - heap_start) % block_size(i) == 0);
                    }
                }
            }
        }
    }
}

/// Allocates `len` bytes rounded up to whole pages and clears them: a block
/// of the heap as [`Heap::allocate`] hands it out, whose first
/// `page_round_up(len)` bytes then read zero.  `None` when the heap has no
/// block for it ([`Heap::has_block`]).
pub fn alloc_pages(heap: &mut Heap, mem: &mut Memory, len: usize) -> (r: Option<usize>)
    requires
        len <= usize::MAX - 4095,
        page_round_up(len as int) <= isize::MAX - 4095,
        old(heap).free_list@.len() == FREE_LIST_LENGTH,
        old(heap).blocks_in_range(),
    ensures
        final(heap).base_addr == old(heap).base_addr,
        final(heap).limit@ == old(heap).limit@,
        ({
            let fl = old(heap).free_list@;
            let bf = request_order(page_round_up(len as int));
            let f = if bf >= FREE_LIST_LENGTH {
                FREE_LIST_LENGTH as int
            } else {
                first_nonempty(fl, bf)
            };
            &&& f == FREE_LIST_LENGTH ==> {
                &&& r is None
                &&& final(heap).free_list@ == fl
                &&& final(mem)@ == old(mem)@
                &&& final(heap).handed_out@ == old(heap).handed_out@
            }
            &&& f < FREE_LIST_LENGTH ==> r == Some(fl[f])
            &&& f < FREE_LIST_LENGTH && f == bf ==> final(heap).free_list@ == fl.update(
                f,
                word_of(old(mem)@, fl[f] as int) as usize,
            )
            &&& f < FREE_LIST_LENGTH && f > bf ==> final(heap).free_list@ == lists_after_split(
                fl,
                f,
                bf,
            )
            &&& f < FREE_LIST_LENGTH ==> forall|a: int| #[trigger]
                byte_of(final(mem)@, a) == if fl[f] <= a < fl[f] + page_round_up(len as int) {
                    0
                } else if f > bf && in_dropped_buddy_word(fl, fl[f] as int, bf, f, a) {
                    0
                } else {
                    byte_of(old(mem)@, a)
                }
        }),
        r is None ==> final(heap).free_list@ == old(heap).free_list@ && final(mem)@ == old(mem)@
            && final(heap).handed_out@ == old(heap).handed_out@,
        old(heap).wf() && old(heap).memory_clean(old(mem)@) ==> {
            &&& final(heap).wf()
            &&& r matches Some(a) ==> {
                let k = request_order(page_round_up(len as int));
                &&& block_size(k) >= page_round_up(len as int)
                &&& old(heap).base_addr <= a
                &&& (a - old(heap).base_addr) % block_size(k) == 0
                &&& a + block_size(k) <= old(heap).limit@
                &&& forall|x: int|
                    a <= x < a + block_size(k) ==> !#[trigger] old(heap).handed_out@.contains(x)
                &&& final(heap).handed_out@ == old(heap).handed_out@.union(block_bytes(a as int, k))
                &&& final(heap).memory_clean(final(mem)@)
            }
            &&& r is None ==> final(heap).memory_clean(final(mem)@)
            &&& forall|x: int| #[trigger]
                old(heap).handed_out@.contains(x) ==> byte_of(final(mem)@, x) == byte_of(
                    old(mem)@,
                    x,
                )
        },
{
    let aligned_len = (len + 4095) & !4095usize;
    proof {
        let x = (len + 4095) as usize;
        assert(x & !4095usize == x - x % 4096) by (bit_vector);
    }
    let ghost mem0 = mem@;
    if !heap.has_block(aligned_len) {
        return None;
    }
    let ptr = heap.allocate(mem, aligned_len);
    let ghost mem1 = mem@;
    proof {
        let fl = old(heap).free_list@;
        let bf = request_order(aligned_len as int);
        lemma_order_of_facts(if aligned_len < MIN_BLOCK_SIZE { MIN_BLOCK_SIZE as int } else { aligned_len as int });
        let f = first_nonempty(fl, bf);
        lemma_first_nonempty(fl, bf);
        assert(fl[f] != 0);
        lemma_block_size_monotone(bf, f);
        assert(old(heap).blocks_in_range());
    }
    let mut i: usize = 0;
    while i < aligned_len
        invariant
            i <= aligned_len,
            ptr + aligned_len <= usize::MAX,
            forall|a: int| #[trigger]
                byte_of(mem@, a) == if ptr <= a < ptr + i {
                    0
                } else {
                    byte_of(mem1, a)
                },
        decreases aligned_len - i,
    {
        let ghost before = mem@;
        mem.write_u8((ptr + i) as u64, 0);
        proof {
            assert forall|a: int| #[trigger]
                byte_of(mem@, a) == if ptr <= a < ptr + i + 1 {
                    0
                } else {
                    byte_of(mem1, a)
                } by {
                if a != ptr + i {
                    assert(byte_of(mem@, a) == byte_of(before, a));
                }
            }
        }
        i = i + 1;
    }
    proof {
        if old(heap).wf() && old(heap).memory_clean(mem0) {
            let k = request_order(aligned_len as int);
            assert forall|x: int|
                heap.base_addr <= x < heap.limit@ && !heap.handed_out@.contains(
                    x,
                ) implies #[trigger] byte_of(mem@, x) == 0 by {
                assert(block_bytes(ptr as int, k).contains(x) ==> heap.handed_out@.contains(x));
                assert(byte_of(mem1, x) == 0);
            }
        }
    }
    Some(ptr)
}

/// The heap behind the global allocator.
pub struct BuddyAllocator {
    pub heap: Heap,
}

/// Why a block could not be given back.
#[derive(Debug, Clone, Copy, PartialEq, Eq)]
pub enum DeallocFault {
    /// Merging went past the last free list.
    ListIndexOutOfRange,
    /// A buddy address does not fit in a `usize`.
    AddressOverflow,
    /// A list head lies below the heap's start.
    AddressUnderflow,
}

/// Where the walk that follows byte links from `s` stops within `n` steps:
/// at the null pointer or at `b`; `-1` when it does not stop within `n` steps.
/// Each step reads the byte at the current address and takes it as the next
/// address.
pub open spec fn chain_stop(m: Map<u64, u8>, s: int, b: int, n: nat) -> int
    decreases n,
{
    if s == 0 || s == b {
        s
    } else if n == 0 {
        -1
    } else {
        chain_stop(m, byte_of(m, s) as int, b, (n - 1) as nat)
    }
}

/// The walk from `s` stops.
pub open spec fn walk_stops(m: Map<u64, u8>, s: int, b: int) -> bool {
    exists|n: nat| #[trigger] chain_stop(m, s, b, n) != -1
}

/// Where the walk from `s` stops.
pub open spec fn walk_stop(m: Map<u64, u8>, s: int, b: int) -> int {
    chain_stop(m, s, b, choose|n: nat| #[trigger] chain_stop(m, s, b, n) != -1)
}

proof fn lemma_chain_stop_unique(m: Map<u64, u8>, s: int, b: int, n1: nat, n2: nat)
    requires
        chain_stop(m, s, b, n1) != -1,
        chain_stop(m, s, b, n2) != -1,
    ensures
        chain_stop(m, s, b, n1) == chain_stop(m, s, b, n2),
    decreases n1,
{
    if s != 0 && s != b {
        lemma_chain_stop_unique(m, byte_of(m, s) as int, b, (n1 - 1) as nat, (n2 - 1) as nat);
    }
}

/// `m` after unlinking the buddy at `b`: the byte at `b` takes the byte found
/// at the address that `b`'s byte names.
pub open spec fn unlink_byte(m: Map<u64, u8>, b: int) -> Map<u64, u8> {
    m.insert(b as u64, byte_of(m, byte_of(m, b) as int))
}

/// Removes the buddy at `buddy_addr` from the list that starts at
/// `linked_list_start`, following byte links; `Err` when the walk reaches the
/// null pointer first.
pub fn delete_buddy_from_linked_list(mem: &mut Memory, linked_list_start: usize, buddy_addr: usize) -> (r: Result<(), ()>)
    requires
        walk_stops(old(mem)@, linked_list_start as int, buddy_addr as int),
    ensures
        r is Ok <==> walk_stop(old(mem)@, linked_list_start as int, buddy_addr as int) != 0,
        r is Ok ==> final(mem)@ == unlink_byte(old(mem)@, buddy_addr as int),
        r is Err ==> final(mem)@ == old(mem)@,
{
    let ghost m = mem@;
    let ghost fuel: nat = choose|n: nat| #[trigger] chain_stop(m, linked_list_start as int, buddy_addr as int, n) != -1;
    let ghost mut left: nat = fuel;
    let mut cursor = linked_list_start;
    loop
        invariant
            mem@ == m,
            m == old(mem)@,
            chain_stop(m, cursor as int, buddy_addr as int, left) != -1,
            chain_stop(m, cursor as int, buddy_addr as int, left) == walk_stop(m, linked_list_start as int, buddy_addr as int),
        decreases left,
    {
        if cursor == 0 {
            // List ended.
            return Err(());
        } else if cursor == buddy_addr {
            let link = mem.read_u8(cursor as u64);
            let next_node = mem.read_u8(link as u64);
            mem.write_u8(cursor as u64, next_node);
            return Ok(());
        } else {
            let link = mem.read_u8(cursor as u64);
            cursor = link as usize;
            proof {
                left = (left - 1) as nat;
            }
        }
    }
}

/// The order of a block given back with `size` bytes: that of the smallest
/// power of two that holds it, and at least that of an 8-byte block.
pub open spec fn release_order(size: int) -> int {
    if order_of(size) < 3 { 3 } else { order_of(size) }
}

/// The outcome of giving back a block: the free lists, the memory, and the
/// fault that stops the merge, if any.  `offset` is the block's offset from
/// `base`, `size == 2^id` its size.
///
/// Order by order, from `id` up:
/// - an order past the last list is a fault;
/// - an empty list takes the block, and the merge ends;
/// - otherwise the buddy, at offset `offset ^ size`, is taken off the list:
///   when it heads the list, the head becomes the link stored in its first
///   byte; else the buddy's byte takes the byte its link names
///   ([`unlink_byte`]).  When the list's walk ([`walk_stop`]) ends at a null
///   link without meeting the buddy, the block is dropped and the merge ends;
/// - a head below `base` at or below the block is a fault;
/// - else the merged block goes on to the next order with twice the size, at
///   the lower of its own offset and that of the list's head (the head is
///   the buddy when the buddy heads the list).
pub open spec fn release_outcome(
    fl: Seq<usize>,
    m: Map<u64, u8>,
    base: usize,
    offset: usize,
    size: usize,
    id: int,
) -> (Seq<usize>, Map<u64, u8>, Option<DeallocFault>)
    decreases FREE_LIST_LENGTH - id,
{
    if id < 0 || id >= FREE_LIST_LENGTH {
        (fl, m, Some(DeallocFault::ListIndexOutOfRange))
    } else if fl[id] == 0 {
        (fl.update(id, (offset + base) as usize), m, None)
    } else {
        let same = fl[id] as int;
        let buddy = (offset ^ size) + base;
        if buddy > usize::MAX {
            (fl, m, Some(DeallocFault::AddressOverflow))
        } else {
            let found = same == buddy;
            let (fl2, m2) = if found {
                (fl.update(id, byte_of(m, same) as usize), m)
            } else {
                (fl, unlink_byte(m, buddy))
            };
            if !found && walk_stop(m, same, buddy) == 0 {
                (fl, m, None)
            } else if same <= offset + base && same < base {
                (fl2, m2, Some(DeallocFault::AddressUnderflow))
            } else {
                let next_offset = if same > offset + base { offset } else { (same - base) as usize };
                release_outcome(fl2, m2, base, next_offset, (size * 2) as usize, id + 1)
            }
        }
    }
}

/// The list heads lie at or above `lo` (or are null).
pub open spec fn heads_at_or_above(fl: Seq<usize>, lo: int) -> bool {
    forall|i: int| 0 <= i < fl.len() ==> #[trigger] fl[i] == 0 || fl[i] >= lo
}

/// The first 256 bytes of memory read zero.
pub open spec fn low_memory_clear(m: Map<u64, u8>) -> bool {
    forall|a: int| 0 <= a < 256 ==> #[trigger] byte_of(m, a) == 0
}

impl BuddyAllocator {
    /// Hands out a block of at least `size` bytes, as [`Heap::allocate`] does:
    /// the block leaves the free lists and is handed out.
    pub fn allocate(&mut self, mem: &mut Memory, size: usize) -> (r: usize)
        requires
            old(self).heap.free_list@.len() == FREE_LIST_LENGTH,
            old(self).heap.blocks_in_range(),
            has_block_for(old(self).heap.free_list@, size as int),
        ensures
            final(self).heap.base_addr == old(self).heap.base_addr,
            final(self).heap.limit@ == old(self).heap.limit@,
            ({
                let fl = old(self).heap.free_list@;
                let bf = request_order(size as int);
                let f = first_nonempty(fl, bf);
                &&& r == fl[f]
                &&& f == bf ==> {
                    &&& final(self).heap.free_list@ == fl.update(
                        f,
                        word_of(old(mem)@, fl[f] as int) as usize,
                    )
                    &&& final(mem)@ == old(mem)@
                }
                &&& f > bf ==> {
                    &&& final(self).heap.free_list@ == lists_after_split(fl, f, bf)
                    &&& forall|a: int| #[trigger]
                        byte_of(final(mem)@, a) == if in_dropped_buddy_word(
                            fl,
                            fl[f] as int,
                            bf,
                            f,
                            a,
                        ) {
                            0
                        } else {
                            byte_of(old(mem)@, a)
                        }
                }
            }),
            old(self).heap.wf() && old(self).heap.memory_clean(old(mem)@) ==> {
                &&& final(self).heap.wf()
                &&& final(self).heap.memory_clean(final(mem)@)
                &&& {
                    let a = r;
                    let k = request_order(size as int);
                    &&& block_size(k) >= size
                    &&& old(self).heap.base_addr <= a
                    &&& (a - old(self).heap.base_addr) % block_size(k) == 0
                    &&& a + block_size(k) <= old(self).heap.limit@
                    &&& forall|x: int|
                        a <= x < a + block_size(k) ==> !#[trigger] old(self).heap.handed_out@.contains(x)
                    &&& final(self).heap.handed_out@ == old(self).heap.handed_out@.union(block_bytes(a as int, k))
                }
                &&& forall|x: int| #[trigger]
                    old(self).heap.handed_out@.contains(x) ==> byte_of(final(mem)@, x) == byte_of(
                        old(mem)@,
                        x,
                    )
            },
    {
        self.heap.allocate(mem, size)
    }

    /// Gives back the block at `ptr` of `size` bytes to the heap that starts
    /// at `heap_start`, merging it with its free buddies, order by order, as
    /// [`release_outcome`] describes.
    ///
    /// The links of the free lists are stored as single bytes, so a link
    /// read back names an address below 256.  On the machine this runs on,
    /// no heap lies below 256 (`heap_start >= 256`) and the first 256 bytes
    /// of memory read zero (`low_memory_clear`), so following such a link
    /// reads a null link and ends the walk of a list.  Without these two
    /// facts of the machine the walk of a list could go on for ever; the
    /// machine's memory starts out zero, so they hold there.
    pub fn dealloc(&mut self, mem: &mut Memory, heap_start: usize, ptr: usize, size: usize) -> (r: Result<(), DeallocFault>)
        requires
            ptr >= heap_start,
            heap_start >= 256,
            order_of(size as int) < usize::BITS,
            old(self).heap.free_list@.len() == FREE_LIST_LENGTH,
            heads_at_or_above(old(self).heap.free_list@, heap_start as int),
            low_memory_clear(old(mem)@),
        ensures
            ({
                let k = release_order(size as int);
                let out = release_outcome(
                    old(self).heap.free_list@,
                    old(mem)@,
                    heap_start,
                    (ptr - heap_start) as usize,
                    block_size(k) as usize,
                    k,
                );
                &&& final(self).heap.free_list@ == out.0
                &&& final(mem)@ == out.1
                &&& (r matches Err(e) ==> out.2 == Some(e))
                &&& (r is Ok ==> out.2 is None)
            }),
            final(self).heap.base_addr == old(self).heap.base_addr,
    {
        let ghost k = release_order(size as int);
        let buddy_order = order_for(size);
        proof {
            lemma_order_from(size as int, 0);
            lemma_usize_pow2_no_overflow(buddy_order as nat);
            lemma_usize_shl_is_mul(1, buddy_order);
            lemma2_to64();
        }
        let buddy_size = 1usize << buddy_order;
        let mut best_fit_size: usize = if buddy_size < 8 { 8 } else { buddy_size };
        let mut best_fit_id: usize = if buddy_size < 8 { 3 } else { buddy_order };
        proof {
            if buddy_size < 8 {
                if buddy_order >= 3 {
                    lemma_block_size_monotone(3, buddy_order as int);
                }
            } else {
                if buddy_order < 3 {
                    lemma_block_size_monotone(buddy_order as int, 2);
                }
            }
        }
        let mut start_addr_offset = ptr - heap_start;
        let ghost fl0 = self.heap.free_list@;
        let ghost m0 = mem@;
        assert(best_fit_id == k);
        assert(best_fit_size == block_size(k));
        loop
            invariant
                self.heap.free_list@.len() == FREE_LIST_LENGTH,
                self.heap.base_addr == old(self).heap.base_addr,
                heap_start >= 256,
                start_addr_offset + heap_start <= usize::MAX,
                best_fit_id >= 3,
                best_fit_id < FREE_LIST_LENGTH ==> best_fit_size == block_size(best_fit_id as int),
                low_memory_clear(mem@),
                forall|i: int| best_fit_id <= i < FREE_LIST_LENGTH ==> #[trigger] self.heap.free_list@[i] == fl0[i],
                heads_at_or_above(fl0, heap_start as int),
                fl0 == old(self).heap.free_list@,
                m0 == old(mem)@,
                k == release_order(size as int),
                release_outcome(self.heap.free_list@, mem@, heap_start, start_addr_offset, best_fit_size, best_fit_id as int)
                    == release_outcome(fl0, m0, heap_start, (ptr - heap_start) as usize, block_size(k) as usize, k),
            decreases FREE_LIST_LENGTH - best_fit_id,
        {
            if best_fit_id >= FREE_LIST_LENGTH {
                return Err(DeallocFault::ListIndexOutOfRange);
            }
            let same_size_node = self.heap.free_list[best_fit_id];
            if same_size_node != 0 {
                let x = start_addr_offset ^ best_fit_size;
                if x > usize::MAX - heap_start {
                    return Err(DeallocFault::AddressOverflow);
                }
                let buddy_addr = x + heap_start;
                let ghost fl_before = self.heap.free_list@;
                let ghost m_before = mem@;
                if same_size_node == buddy_addr {
                    let link = mem.read_u8(same_size_node as u64);
                    self.heap.free_list.set(best_fit_id, link as usize);
                } else {
                    proof {
                        assert(chain_stop(m_before, same_size_node as int, buddy_addr as int, 2) != -1) by {
                            let b1 = byte_of(m_before, same_size_node as int) as int;
                            assert(byte_of(m_before, b1) == 0);
                            reveal_with_fuel(chain_stop, 3);
                        }
                    }
                    let deleted = delete_buddy_from_linked_list(mem, same_size_node, buddy_addr);
                    proof {
                        lemma_chain_stop_unique(m_before, same_size_node as int, buddy_addr as int, 2,
                            choose|n: nat| #[trigger] chain_stop(m_before, same_size_node as int, buddy_addr as int, n) != -1);
                    }
                    if deleted.is_err() {
                        return Ok(());
                    }
                    proof {
                        assert forall|a: int| 0 <= a < 256 implies #[trigger] byte_of(mem@, a) == 0 by {
                            assert(byte_of(m_before, a) == 0);
                        }
                    }
                }
                if same_size_node <= start_addr_offset + heap_start && same_size_node < heap_start {
                    return Err(DeallocFault::AddressUnderflow);
                }
                start_addr_offset = if same_size_node > start_addr_offset + heap_start {
                    start_addr_offset
                } else {
                    same_size_node - heap_start
                };
                proof {
                    lemma_block_size_facts(best_fit_id as int + 1);
                    lemma_block_size_monotone(best_fit_id as int + 1, 30);
                    lemma2_to64();
                }
                best_fit_size = best_fit_size * 2;
                best_fit_id = best_fit_id + 1;
            } else {
                self.heap.free_list.set(best_fit_id, start_addr_offset + heap_start);
                return Ok(());
            }
        }
    }
}

/// Flipping bit `j` of an offset that is a multiple of `2^f`, for `j < f`,
/// adds `2^j`.
proof fn lemma_buddy_offset(off: usize, j: int, f: int)
    requires
        0 <= j < f < 30,
        off as int % block_size(f) == 0,
    ensures
        off ^ (block_size(j) as usize) == off + block_size(j),
{
    lemma_usize_pow2_no_overflow(f as nat);
    lemma_usize_pow2_no_overflow(j as nat);
    lemma_usize_shl_is_mul(1, f as usize);
    lemma_usize_shl_is_mul(1, j as usize);
    vstd::bits::lemma_usize_low_bits_mask_is_mod(off, f as nat);
    let fu = f as usize;
    let ju = j as usize;
    let mask: usize = ((1usize << fu) - 1) as usize;
    assert(off & mask == 0);
    assert(off ^ (1usize << ju) == off + (1usize << ju)) by (bit_vector)
        requires
            off & mask == 0,
            mask == ((1usize << fu) - 1) as usize,
            ju < fu,
            fu < 30,
    ;
}

/// The free lists while a block is merged back up to order `j`: the buddies
/// of the orders below `j` are off their lists again.
spec fn lists_merged_up_to(fl: Seq<usize>, f: int, bf: int, j: int) -> Seq<usize> {
    Seq::new(fl.len(), |i: int| if bf <= i < j { 0usize } else { lists_after_split(fl, f, bf)[i] })
}

/// Merging back, from order `j` on, the block at `fl[f]` that was split down to
/// order `bf` meets its buddy at the head of each list up to `f`, and ends with
/// the lists as they were before the split.
proof fn lemma_merge_back(h: Heap, m: Map<u64, u8>, bf: int, f: int, j: int)
    requires
        h.wf(),
        h.memory_clean(m),
        0 <= bf <= j <= f < FREE_LIST_LENGTH,
        h.free_list@[f] != 0,
        forall|i: int| bf <= i < f ==> #[trigger] h.free_list@[i] == 0,
    ensures
        release_outcome(
            lists_merged_up_to(h.free_list@, f, bf, j),
            m,
            h.base_addr,
            (h.free_list@[f] - h.base_addr) as usize,
            block_size(j) as usize,
            j,
        ) == (h.free_list@, m, None::<DeallocFault>),
    decreases f - j,
{
    let fl = h.free_list@;
    let base = h.base_addr;
    let top = fl[f] as int;
    let off = (top - base) as usize;
    let merged = lists_merged_up_to(fl, f, bf, j);
    assert(h.free_block_ok(f));
    lemma_block_size_facts(f);
    lemma_block_size_facts(j);
    if j == f {
        assert(merged[f] == 0);
        assert(merged.update(f, (off + base) as usize) =~= fl);
    } else {
        lemma_block_size_monotone(j, f);
        lemma_block_size_facts(j + 1);
        lemma_buddy_offset(off, j, f);
        let same = merged[j] as int;
        assert(same == top + block_size(j));
        let buddy = (off ^ (block_size(j) as usize)) + base;
        assert(buddy == same);
        assert(byte_of(m, same) == 0);
        let next = merged.update(j, byte_of(m, same) as usize);
        assert(next =~= lists_merged_up_to(fl, f, bf, j + 1));
        assert((block_size(j) as usize * 2) as usize == block_size(j + 1) as usize);
        lemma_merge_back(h, m, bf, f, j + 1);
    }
}

/// A request of `size` bytes is handed out, and given back, as a block of the
/// same order.
proof fn lemma_release_order_is_request_order(size: int)
    requires
        0 <= size,
    ensures
        release_order(size) == request_order(size),
{
    lemma2_to64();
    lemma_order_from(size, 0);
    lemma_order_from(8, 0);
    assert(block_size(0) == 1 && block_size(1) == 2 && block_size(2) == 4 && block_size(3) == 8);
    if order_of(8) < 3 {
        assert(block_size(order_of(8)) < 8);
    } else if order_of(8) > 3 {
        assert(block_size(3) < 8);
    }
    if size < 8 {
        if order_of(size) > 3 {
            assert(block_size(3) < size);
        }
    } else {
        lemma_order_of_facts(size);
    }
}

/// Giving back a block that the heap split off a larger free block undoes
/// the allocation: when every list from the request's order up to that of
/// the block `allocate` split is empty, freeing the block it handed out meets
/// the buddy that the split left at the head of each of those lists, merges
/// with it, and leaves the free lists as they were before the allocation and
/// the memory as it was.
pub proof fn lemma_dealloc_undoes_split(h: Heap, m: Map<u64, u8>, size: usize)
    requires
        h.wf(),
        h.memory_clean(m),
        request_order(size as int) < first_nonempty(h.free_list@, request_order(size as int)),
        first_nonempty(h.free_list@, request_order(size as int)) < FREE_LIST_LENGTH,
    ensures
        ({
            let fl = h.free_list@;
            let bf = request_order(size as int);
            let f = first_nonempty(fl, bf);
            release_outcome(
                lists_after_split(fl, f, bf),
                m,
                h.base_addr,
                (fl[f] - h.base_addr) as usize,
                block_size(release_order(size as int)) as usize,
                release_order(size as int),
            ) == (fl, m, None::<DeallocFault>)
        }),
{
    let fl = h.free_list@;
    let bf = request_order(size as int);
    lemma_order_of_facts(if size < MIN_BLOCK_SIZE { MIN_BLOCK_SIZE as int } else { size as int });
    lemma_release_order_is_request_order(size as int);
    lemma_first_nonempty_skips(fl, bf);
    let f = first_nonempty(fl, bf);
    lemma_first_nonempty(fl, bf);
    assert(lists_merged_up_to(fl, f, bf, bf) =~= lists_after_split(fl, f, bf));
    lemma_merge_back(h, m, bf, f, bf);
}

/// Flipping bit `j` of an offset that is a multiple of `2^f` plus `2^j`, for
/// `j < f`, takes `2^j` off again.
proof fn lemma_buddy_offset_down(off: usize, j: int, f: int)
    requires
        0 <= j < f < 30,
        off as int % block_size(f) == 0,
        off + block_size(j) <= usize::MAX,
    ensures
        ((off + block_size(j)) as usize) ^ (block_size(j) as usize) == off,
{
    lemma_usize_pow2_no_overflow(f as nat);
    lemma_usize_pow2_no_overflow(j as nat);
    lemma_usize_shl_is_mul(1, f as usize);
    lemma_usize_shl_is_mul(1, j as usize);
    vstd::bits::lemma_usize_low_bits_mask_is_mod(off, f as nat);
    let fu = f as usize;
    let ju = j as usize;
    let mask: usize = ((1usize << fu) - 1) as usize;
    assert(off & mask == 0);
    assert(((off + (1usize << ju)) as usize) ^ (1usize << ju) == off) by (bit_vector)
        requires
            off & mask == 0,
            mask == ((1usize << fu) - 1) as usize,
            ju < fu,
            fu < 30,
    ;
}

/// Two requests of `size` bytes that split a larger free block take its two
/// lowest halves of the request's order, and giving them back, the lower one
/// first, merges the upper one with the lower one into a block that starts
/// at the lower one's address, and so on up: the free lists are as they were
/// before the two requests, and the memory is unchanged.
pub proof fn lemma_dealloc_both_halves(h: Heap, m: Map<u64, u8>, size: usize)
    requires
        h.wf(),
        h.memory_clean(m),
        request_order(size as int) < first_nonempty(h.free_list@, request_order(size as int)),
        first_nonempty(h.free_list@, request_order(size as int)) < FREE_LIST_LENGTH,
    ensures
        ({
            let fl = h.free_list@;
            let bf = request_order(size as int);
            let f = first_nonempty(fl, bf);
            let n = fl[f] as int;
            let k = release_order(size as int);
            let half = block_size(k);
            let l1 = lists_after_split(fl, f, bf);
            let l2 = l1.update(bf, 0usize);
            let lower = release_outcome(l2, m, h.base_addr, (n - h.base_addr) as usize, half as usize, k);
            &&& k == bf
            &&& first_nonempty(l1, bf) == bf
            &&& l1[bf] == n + half
            &&& word_of(m, n + half) == 0
            &&& lower == (l2.update(bf, n as usize), m, None::<DeallocFault>)
            &&& release_outcome(lower.0, lower.1, h.base_addr, (n + half - h.base_addr) as usize, half as usize, k)
                == (fl, m, None::<DeallocFault>)
            &&& ({
                let upper = release_outcome(l2, m, h.base_addr, (n + half - h.base_addr) as usize, half as usize, k);
                &&& upper == (l2.update(bf, (n + half) as usize), m, None::<DeallocFault>)
                &&& release_outcome(upper.0, upper.1, h.base_addr, (n - h.base_addr) as usize, half as usize, k)
                    == (fl, m, None::<DeallocFault>)
            })
        }),
{
    let fl = h.free_list@;
    let base = h.base_addr;
    let bf = request_order(size as int);
    lemma_order_of_facts(if size < MIN_BLOCK_SIZE { MIN_BLOCK_SIZE as int } else { size as int });
    lemma_release_order_is_request_order(size as int);
    lemma_first_nonempty_skips(fl, bf);
    let f = first_nonempty(fl, bf);
    lemma_first_nonempty(fl, bf);
    let n = fl[f] as int;
    let half = block_size(bf);
    assert(h.free_block_ok(f));
    lemma_block_size_facts(f);
    lemma_block_size_facts(bf);
    lemma_block_size_facts(bf + 1);
    lemma_block_size_monotone(bf + 1, f);
    let l1 = lists_after_split(fl, f, bf);
    assert(fl[bf] == 0);
    assert(l1[bf] == n + half);
    assert(first_nonempty(l1, bf) == bf);
    // The upper half's link reads zero: it lies in free memory.
    assert forall|b: int| n + half <= b < n + half + 8 implies #[trigger] byte_of(m, b) == 0 by {
        assert(!h.handed_out@.contains(b));
    }
    crate::memory::lemma_zero_word(m, n + half);
    // Freeing the lower half puts it on its empty list.
    let l2 = l1.update(bf, 0usize);
    assert(l2 =~= lists_merged_up_to(fl, f, bf, bf + 1));
    let off = (n - base) as usize;
    assert(((off + base) as usize) as int == n);
    let l3 = l2.update(bf, n as usize);
    // Freeing the upper half meets the lower one at the head of its list.
    let up = (n + half - base) as usize;
    assert(off as int % block_size(f) == 0);
    lemma_buddy_offset_down(off, bf, f);
    assert(up ^ (half as usize) == off);
    assert(byte_of(m, n) == 0) by {
        assert(!h.handed_out@.contains(n));
    }
    assert(l3.update(bf, byte_of(m, n) as usize) =~= lists_merged_up_to(fl, f, bf, bf + 1));
    assert((half as usize * 2) as usize == block_size(bf + 1) as usize);
    lemma_merge_back(h, m, bf, f, bf + 1);
    // The other order: the upper half goes on its empty list, and the lower
    // one meets it there.
    assert(((up + base) as usize) as int == n + half);
    let l4 = l2.update(bf, (n + half) as usize);
    lemma_buddy_offset(off, bf, f);
    assert(off ^ (half as usize) == up);
    assert(byte_of(m, n + half) == 0);
    assert(l4.update(bf, byte_of(m, n + half) as usize) =~= lists_merged_up_to(fl, f, bf, bf + 1));
}

/// The lists that `first_nonempty` passes over are empty.
proof fn lemma_first_nonempty_skips(fl: Seq<usize>, from: int)
    requires
        0 <= from,
    ensures
        forall|i: int| from <= i < first_nonempty(fl, from) && i < FREE_LIST_LENGTH ==> #[trigger] fl[i] == 0,
    decreases FREE_LIST_LENGTH - from,
{
    if from < FREE_LIST_LENGTH && fl[from] == 0 {
        lemma_first_nonempty_skips(fl, from + 1);
    }
}

proof fn lemma_dropped_word_in_block(fl: Seq<usize>, n: int, lo: int, hi: int, a: int)
    requires
        3 <= lo,
        hi < 64,
        in_dropped_buddy_word(fl, n, lo, hi, a),
    ensures
        n < a < n + block_size(hi),
    decreases hi - lo,
{
    if fl[lo] != 0 && n + block_size(lo) <= a < n + block_size(lo) + 8 {
        lemma_block_size_facts(lo);
        lemma_block_size_facts(lo + 1);
        lemma_block_size_monotone(lo + 1, hi);
    } else {
        lemma_dropped_word_in_block(fl, n, lo + 1, hi, a);
    }
}

pub proof fn lemma_first_nonempty(fl: Seq<usize>, from: int)
    requires
        0 <= from,
    ensures
        from <= first_nonempty(fl, from) <= FREE_LIST_LENGTH || from > FREE_LIST_LENGTH,
        first_nonempty(fl, from) < FREE_LIST_LENGTH ==> fl[first_nonempty(fl, from)] != 0,
    decreases FREE_LIST_LENGTH - from,
{
    if from < FREE_LIST_LENGTH && fl[from] == 0 {
        lemma_first_nonempty(fl, from + 1);
    }
}

pub proof fn lemma_order_from(size: int, from: int)
    requires
        0 <= from,
    ensures
        from <= order_from(size, from) || from > usize::BITS,
        order_from(size, from) <= usize::BITS,
        order_from(size, from) < usize::BITS ==> block_size(order_from(size, from)) >= size,
        forall|k: int| from <= k < order_from(size, from) ==> #[trigger] block_size(k) < size,
    decreases usize::BITS - from,
{
    if from < usize::BITS && block_size(from) < size {
        lemma_order_from(size, from + 1);
    }
}

proof fn lemma_order_of_facts(size: int)
    requires
        MIN_BLOCK_SIZE <= size,
    ensures
        3 <= order_of(size) <= usize::BITS,
        order_of(size) < usize::BITS ==> block_size(order_of(size)) >= size,
{
    lemma_order_from(size, 0);
    lemma2_to64();
    if order_of(size) < 3 {
        assert(block_size(order_of(size)) < 8);
    }
}

/// In a well-formed heap whose free memory reads zero, the link stored in
/// the block at the head of list `bf` reads null.
pub proof fn lemma_clean_head_link(h: Heap, mem: Map<u64, u8>, bf: int)
    requires
        h.wf(),
        h.memory_clean(mem),
        3 <= bf < FREE_LIST_LENGTH,
        h.free_list@[bf] != 0,
    ensures
        word_of(mem, h.free_list@[bf] as int) == 0,
{
    let a = h.free_list@[bf] as int;
    assert(h.free_block_ok(bf));
    lemma_block_size_facts(bf);
    assert forall|b: int| a <= b < a + 8 implies #[trigger] byte_of(mem, b) == 0 by {
        assert(!h.handed_out@.contains(b));
    }
    crate::memory::lemma_zero_word(mem, a);
}

/// One more block taken after `k` of them.
pub proof fn lemma_after_clean_allocs_step(fl: Seq<usize>, bf: int, k: nat)
    ensures
        after_clean_allocs(fl, bf, k + 1) == after_clean_alloc(after_clean_allocs(fl, bf, k), bf),
    decreases k,
{
    reveal_with_fuel(after_clean_allocs, 2);
    if k > 0 {
        let f1 = after_clean_alloc(fl, bf);
        lemma_after_clean_allocs_step(f1, bf, (k - 1) as nat);
        assert(((k - 1) as nat + 1) as nat == k);
        assert(after_clean_allocs(fl, bf, k) == after_clean_allocs(f1, bf, (k - 1) as nat));
        assert(after_clean_allocs(fl, bf, k + 1) == after_clean_allocs(f1, bf, k));
    }
}

} // verus!
