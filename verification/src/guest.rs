//! The guests: their vCPUs, the pool of vCPUs that free harts may take, the
//! claims of harts on them, and the loading of each guest's image.

use crate::allocator::{
    after_clean_alloc, after_clean_allocs, alloc_pages, block_bytes, block_size, blocks_fit,
    first_nonempty, page_round_up, request_order, Heap, FREE_LIST_LENGTH,
};
use crate::guest_table::{
    hgatp_value, leaf_value, on_path, translate, GuestPageTable, MapError, PTE_R, PTE_W, PTE_X,
};
use crate::memory::{byte_of, Memory};
use crate::multihart::Hart;
use crate::vcpu::{
    initial_hstatus, initial_sstatus, initial_vsstatus, pools_name_vcpus, scalars_zero, vcpu_exists,
    vector_file_ok, vector_file_zero, Vcpu, VCPU_STACK_SIZE,
};
use vstd::prelude::*;

verus! {

/// A reference to a vCPU: the guest it belongs to and its slot in that
/// guest's `vcpus`.
#[derive(Debug, Clone, Copy, PartialEq, Eq)]
pub struct VcpuRef {
    pub guest: usize,
    pub slot: usize,
}

/// A guest virtual machine.
#[derive(Debug)]
pub struct Guest {
    /// Guest-physical address at which the guest starts.
    pub entry_gpa: usize,
    /// The vCPUs that harts without an assignment may take, first ones first.
    pub vcpu_ptrs: Vec<Option<VcpuRef>>,
    /// The guest's vCPUs.
    pub vcpus: Vec<Option<Vcpu>>,
    /// Harts without an assignment that run this guest.
    pub active_hart_count: usize,
    /// Harts assigned to this guest that run it.
    pub active_assigned_hart_count: usize,
    /// How many harts without an assignment may run this guest at once.
    pub hart_capacity: usize,
    /// How many assigned harts may run this guest at once.
    pub assigned_hart_capacity: usize,
    /// The harts assigned to this guest.
    pub assigned_harts: Vec<Option<u32>>,
    /// The guest's image.
    pub data: Vec<u8>,
}

/// Number of vCPUs in a pool.
pub open spec fn pool_size(s: Seq<Option<VcpuRef>>) -> nat
    decreases s.len(),
{
    if s.len() == 0 {
        0
    } else {
        (if s[0] is Some { 1nat } else { 0nat }) + pool_size(s.drop_first())
    }
}

/// The vCPUs of a pool come first, the empty slots after them.
pub open spec fn packed(s: Seq<Option<VcpuRef>>) -> bool {
    forall|i: int, j: int| 0 <= i < j < s.len() && #[trigger] s[j] is Some ==> #[trigger] s[i] is Some
}

/// The pool of `g` is packed; a vCPU waits in it for every free place of
/// the guest, and there is an empty slot for every hart that runs it.
pub open spec fn pool_ok(g: Guest) -> bool {
    &&& packed(g.vcpu_ptrs@)
    &&& g.active_hart_count <= g.hart_capacity
    &&& pool_size(g.vcpu_ptrs@) + g.active_hart_count >= g.hart_capacity
    &&& pool_size(g.vcpu_ptrs@) + g.active_hart_count <= g.vcpu_ptrs@.len()
}

/// The pool after its first vCPU was taken: every entry moves one slot to
/// the front and the last slot is empty.
pub open spec fn pool_after_take(s: Seq<Option<VcpuRef>>) -> Seq<Option<VcpuRef>> {
    s.drop_first().push(None)
}

/// The pool after `v` was given back into its first empty slot, if it has one.
pub open spec fn pool_after_release(s: Seq<Option<VcpuRef>>, v: VcpuRef) -> Seq<Option<VcpuRef>> {
    if exists|i: int| 0 <= i < s.len() && #[trigger] s[i] is None {
        s.update(first_free_slot(s), Some(v))
    } else {
        s
    }
}

/// The first empty slot of a pool.
pub open spec fn first_free_slot(s: Seq<Option<VcpuRef>>) -> int {
    choose|i: int|
        0 <= i < s.len() && #[trigger] s[i] is None && forall|j: int| 0 <= j < i ==> #[trigger] s[j] is Some
}

/// `g2` is `g` with only the pool and the hart counters possibly changed.
pub open spec fn same_guest_but_claims(g: Guest, g2: Guest) -> bool {
    &&& g2.entry_gpa == g.entry_gpa
    &&& g2.vcpus@ == g.vcpus@
    &&& g2.hart_capacity == g.hart_capacity
    &&& g2.assigned_hart_capacity == g.assigned_hart_capacity
    &&& g2.assigned_harts@ == g.assigned_harts@
    &&& g2.data@ == g.data@
}

proof fn lemma_pool_size_bound(s: Seq<Option<VcpuRef>>)
    ensures
        pool_size(s) <= s.len(),
    decreases s.len(),
{
    if s.len() > 0 {
        lemma_pool_size_bound(s.drop_first());
    }
}

proof fn lemma_pool_size_push_none(s: Seq<Option<VcpuRef>>)
    ensures
        pool_size(s.push(None)) == pool_size(s),
    decreases s.len(),
{
    if s.len() == 0 {
        assert(s.push(None).drop_first() =~= Seq::<Option<VcpuRef>>::empty());
        reveal_with_fuel(pool_size, 2);
    } else {
        assert(s.push(None).drop_first() =~= s.drop_first().push(None));
        lemma_pool_size_push_none(s.drop_first());
    }
}

proof fn lemma_pool_size_update(s: Seq<Option<VcpuRef>>, i: int, v: VcpuRef)
    requires
        0 <= i < s.len(),
        s[i] is None,
    ensures
        pool_size(s.update(i, Some(v))) == pool_size(s) + 1,
    decreases s.len(),
{
    if i > 0 {
        assert(s.update(i, Some(v)).drop_first() =~= s.drop_first().update(i - 1, Some(v)));
        lemma_pool_size_update(s.drop_first(), i - 1, v);
    } else {
        assert(s.update(i, Some(v)).drop_first() =~= s.drop_first());
    }
}

proof fn lemma_first_free_slot(s: Seq<Option<VcpuRef>>)
    requires
        packed(s),
        exists|i: int| 0 <= i < s.len() && #[trigger] s[i] is None,
    ensures
        0 <= first_free_slot(s) < s.len(),
        s[first_free_slot(s)] is None,
        forall|j: int| 0 <= j < first_free_slot(s) ==> #[trigger] s[j] is Some,
        forall|j: int| first_free_slot(s) < j < s.len() ==> #[trigger] s[j] is None,
{
    let i = choose|i: int| 0 <= i < s.len() && #[trigger] s[i] is None;
    // the first empty slot
    let mut k = i;
    assert(exists|k: int|
        0 <= k < s.len() && #[trigger] s[k] is None && forall|j: int| 0 <= j < k ==> #[trigger] s[j] is Some) by {
        lemma_first_none_exists(s, i);
    }
    let f = first_free_slot(s);
    assert forall|j: int| f < j < s.len() implies #[trigger] s[j] is None by {
        if s[j] is Some {
            assert(s[f] is Some);
        }
    }
}

/// The first empty slot of a pool that has one is empty, and every slot
/// before it holds a vCPU.
pub proof fn lemma_first_free_slot_basic(s: Seq<Option<VcpuRef>>)
    requires
        exists|i: int| 0 <= i < s.len() && #[trigger] s[i] is None,
    ensures
        0 <= first_free_slot(s) < s.len(),
        s[first_free_slot(s)] is None,
        forall|j: int| 0 <= j < first_free_slot(s) ==> #[trigger] s[j] is Some,
{
    let i = choose|i: int| 0 <= i < s.len() && #[trigger] s[i] is None;
    lemma_first_none_exists(s, i);
}

proof fn lemma_first_none_exists(s: Seq<Option<VcpuRef>>, i: int)
    requires
        0 <= i < s.len(),
        s[i] is None,
    ensures
        exists|k: int|
            0 <= k < s.len() && #[trigger] s[k] is None && forall|j: int| 0 <= j < k ==> #[trigger] s[j] is Some,
    decreases i,
{
    if forall|j: int| 0 <= j < i ==> #[trigger] s[j] is Some {
        assert(0 <= i < s.len() && s[i] is None && forall|j: int| 0 <= j < i ==> #[trigger] s[j] is Some);
    } else {
        let j = choose|j: int| 0 <= j < i && !(#[trigger] s[j] is Some);
        lemma_first_none_exists(s, j);
    }
}

/// Lets a hart without an assignment run guest `guest_id` if the guest has
/// room for one more: takes the first vCPU of the guest's pool.  `Err` when
/// the guest is full.
pub fn claim_vcpu_for_hart_if_available(guests: &mut Vec<Guest>, guest_id: usize) -> (r: Result<VcpuRef, ()>)
    requires
        guest_id < old(guests)@.len(),
        old(guests)@[guest_id as int].active_hart_count < old(guests)@[guest_id as int].hart_capacity
            ==> old(guests)@[guest_id as int].vcpu_ptrs@.len() > 0
            && old(guests)@[guest_id as int].vcpu_ptrs@[0] is Some,
    ensures
        final(guests)@.len() == old(guests)@.len(),
        forall|i: int| 0 <= i < old(guests)@.len() && i != guest_id ==> #[trigger] final(guests)@[i] == old(guests)@[i],
        same_guest_but_claims(old(guests)@[guest_id as int], final(guests)@[guest_id as int]),
        final(guests)@[guest_id as int].active_assigned_hart_count == old(guests)@[guest_id as int].active_assigned_hart_count,
        ({
            let g = old(guests)@[guest_id as int];
            let g2 = final(guests)@[guest_id as int];
            if g.active_hart_count < g.hart_capacity {
                &&& r == Ok::<VcpuRef, ()>(g.vcpu_ptrs@[0]->0)
                &&& g2.active_hart_count == g.active_hart_count + 1
                &&& g2.vcpu_ptrs@ == pool_after_take(g.vcpu_ptrs@)
                &&& took_vcpu(g, g2)
            } else {
                &&& r is Err
                &&& g2.active_hart_count == g.active_hart_count
                &&& g2.vcpu_ptrs@ == g.vcpu_ptrs@
            }
        }),
        pool_ok(old(guests)@[guest_id as int]) ==> pool_ok(final(guests)@[guest_id as int]),
        r is Err ==> final(guests)@ == old(guests)@,
{
    // Check if a guest is free. A guest is free if the active hart count
    // is less than the hart capacity. These values do not include assigned harts
    let active_hart_count = guests[guest_id].active_hart_count;
    if active_hart_count < guests[guest_id].hart_capacity {
        // Increment the active harts counter.
        guests[guest_id].active_hart_count = active_hart_count + 1;
        // Remove the claimed vcpu pointer of a hart from the vcpu_ptrs array.
        let ghost old_pool = guests@[guest_id as int].vcpu_ptrs@;
        let vcpu_ptr = guests[guest_id].vcpu_ptrs[0].unwrap();
        guests[guest_id].vcpu_ptrs.set(0, None);
        rotate_pool_left(&mut guests[guest_id].vcpu_ptrs);
        proof {
            let g = old(guests)@[guest_id as int];
            let g2 = guests@[guest_id as int];
            assert(g2.vcpu_ptrs@ =~= pool_after_take(g.vcpu_ptrs@));
            if pool_ok(g) {
                let s = g.vcpu_ptrs@;
                lemma_pool_size_push_none(s.drop_first());
                assert(pool_size(s) == 1 + pool_size(s.drop_first()));
                assert forall|i: int, j: int| 0 <= i < j < g2.vcpu_ptrs@.len() && #[trigger] g2.vcpu_ptrs@[j] is Some implies #[trigger] g2.vcpu_ptrs@[i] is Some by {
                    assert(s[j + 1] is Some);
                }
            }
        }
        Ok(vcpu_ptr)
    } else {
        Err(())
    }
}

/// Moves every entry of `pool` one slot to the front; the first entry goes
/// to the last slot.
fn rotate_pool_left(pool: &mut Vec<Option<VcpuRef>>)
    requires
        old(pool)@.len() > 0,
    ensures
        final(pool)@ == old(pool)@.drop_first().push(old(pool)@[0]),
{
    let first = pool[0];
    let mut rotated: Vec<Option<VcpuRef>> = Vec::new();
    let mut i: usize = 1;
    while i < pool.len()
        invariant
            1 <= i <= pool@.len(),
            pool@ == old(pool)@,
            rotated@ == old(pool)@.subrange(1, i as int),
        decreases pool@.len() - i,
    {
        rotated.push(pool[i]);
        i = i + 1;
    }
    rotated.push(first);
    proof {
        assert(rotated@ =~= old(pool)@.drop_first().push(old(pool)@[0]));
    }
    *pool = rotated;
}

/// Lets a hart assigned to guest `guest_id` run it if the guest has room for
/// one more assigned hart.  `Err` when it has none.
pub fn claim_assigned_hart_slot_if_available(guests: &mut Vec<Guest>, guest_id: usize) -> (r: Result<(), ()>)
    requires
        guest_id < old(guests)@.len(),
    ensures
        final(guests)@.len() == old(guests)@.len(),
        forall|i: int| 0 <= i < old(guests)@.len() && i != guest_id ==> #[trigger] final(guests)@[i] == old(guests)@[i],
        same_guest_but_claims(old(guests)@[guest_id as int], final(guests)@[guest_id as int]),
        final(guests)@[guest_id as int].vcpu_ptrs@ == old(guests)@[guest_id as int].vcpu_ptrs@,
        final(guests)@[guest_id as int].active_hart_count == old(guests)@[guest_id as int].active_hart_count,
        ({
            let g = old(guests)@[guest_id as int];
            let g2 = final(guests)@[guest_id as int];
            if g.active_assigned_hart_count < g.assigned_hart_capacity {
                r is Ok && g2.active_assigned_hart_count == g.active_assigned_hart_count + 1
            } else {
                r is Err && g2.active_assigned_hart_count == g.active_assigned_hart_count
            }
        }),
        r is Err ==> final(guests)@ == old(guests)@,
{
    // Check if a guest is free. A guest is free for a assigned hart if the active assigned hart count
    // is less than the assigned hart capacity.
    let active_assigned_hart_count = guests[guest_id].active_assigned_hart_count;
    if active_assigned_hart_count < guests[guest_id].assigned_hart_capacity {
        // Increment the active assigned harts counter.
        guests[guest_id].active_assigned_hart_count = active_assigned_hart_count + 1;
        Ok(())
    } else {
        Err(())
    }
}

/// Why a guest could not be loaded.
#[derive(Debug, Clone, Copy, PartialEq, Eq)]
pub enum GuestLoadError {
    /// The heap ran out of memory.
    OutOfMemory,
}

/// The guest page that holds the guest's first instruction maps to the host
/// page at `kernel`, readable, writable and executable; the image lies there.
pub open spec fn image_loaded(m: Map<u64, u8>, root: u64, entry_gpa: u64, kernel: int, image: Seq<u8>) -> bool {
    &&& image.len() > 0 ==> kernel % 4096 == 0
    &&& 0 <= kernel
    &&& kernel < 0x0100_0000_0000_0000
    &&& translate(m, root, entry_gpa) == Some(leaf_value(kernel as u64, PTE_R | PTE_W | PTE_X))
    &&& forall|i: int| 0 <= i < image.len() ==> #[trigger] byte_of(m, kernel + i) == image[i]
}

/// The image is loaded as [`image_loaded`] says, in bytes handed out in
/// `handed`, and the translation depends on those bytes alone.
pub open spec fn stably_loaded(
    m: Map<u64, u8>,
    handed: Set<int>,
    root: u64,
    entry_gpa: u64,
    kernel: int,
    image: Seq<u8>,
) -> bool {
    &&& image_loaded(m, root, entry_gpa, kernel, image)
    &&& forall|i: int| 0 <= i < image.len() ==> #[trigger] handed.contains(kernel + i)
    &&& forall|m2: Map<u64, u8>|
        (forall|x: int| #[trigger] handed.contains(x) ==> byte_of(m2, x) == byte_of(m, x))
            ==> #[trigger] translate(m2, root, entry_gpa) == translate(m, root, entry_gpa)
}

/// A loaded image stays loaded while the bytes handed out are kept.
pub proof fn lemma_stably_loaded_kept(
    m: Map<u64, u8>,
    handed: Set<int>,
    m2: Map<u64, u8>,
    handed2: Set<int>,
    root: u64,
    entry_gpa: u64,
    kernel: int,
    image: Seq<u8>,
)
    requires
        stably_loaded(m, handed, root, entry_gpa, kernel, image),
        handed.subset_of(handed2),
        forall|x: int| #[trigger] handed.contains(x) ==> byte_of(m2, x) == byte_of(m, x),
    ensures
        stably_loaded(m2, handed2, root, entry_gpa, kernel, image),
{
    assert(translate(m2, root, entry_gpa) == translate(m, root, entry_gpa));
    assert forall|i: int| 0 <= i < image.len() implies #[trigger] byte_of(m2, kernel + i) == image[i] by {
        assert(handed.contains(kernel + i));
    }
    assert forall|m3: Map<u64, u8>|
        (forall|x: int| #[trigger] handed2.contains(x) ==> byte_of(m3, x) == byte_of(m2, x))
            implies #[trigger] translate(m3, root, entry_gpa) == translate(m2, root, entry_gpa) by {
        assert forall|x: int| #[trigger] handed.contains(x) implies byte_of(m3, x) == byte_of(m, x) by {
            assert(handed2.contains(x));
        }
    }
}

/// The free lists `fl` have no block left for one of the things a guest's
/// vCPU needs: the pages of an image of `image_len` bytes, a page table, or
/// a hypervisor stack.
pub open spec fn heap_short(fl: Seq<usize>, image_len: int) -> bool {
    ||| first_nonempty(fl, request_order(page_round_up(image_len))) == FREE_LIST_LENGTH
    ||| first_nonempty(fl, 12) == FREE_LIST_LENGTH
    ||| first_nonempty(fl, 19) == FREE_LIST_LENGTH
}

/// The free lists after a guest with an image of `n` bytes was loaded by a
/// heap whose free memory reads zero: a block for the image, a root table and
/// the three tables below it, then a vCPU stack are taken in turn; `None` when
/// the heap runs out on the way.
pub open spec fn after_guest_load(fl: Seq<usize>, n: int) -> Option<Seq<usize>> {
    let bo = request_order(page_round_up(n));
    if !blocks_fit(fl, bo, 1) {
        None
    } else {
        let f1 = after_clean_alloc(fl, bo);
        if !blocks_fit(f1, 12, 4) {
            None
        } else {
            let f2 = after_clean_allocs(f1, 12, 4);
            if !blocks_fit(f2, 19, 1) {
                None
            } else {
                Some(after_clean_alloc(f2, 19))
            }
        }
    }
}

/// The stack that loading a guest with an image of `n` bytes gives its vCPU:
/// the block of order 19 taken after the image's block and the four page
/// tables ([`after_guest_load`]).
pub open spec fn vcpu_stack(fl: Seq<usize>, n: int) -> int {
    let f1 = after_clean_alloc(fl, request_order(page_round_up(n)));
    let f2 = after_clean_allocs(f1, 12, 4);
    f2[first_nonempty(f2, 19)] as int
}

/// The free lists after the vCPUs of guest `g` from slot `i` up to its
/// capacities were loaded, one [`after_guest_load`] each; `None` when the
/// heap runs out on the way.
pub open spec fn after_vcpu_loads(fl: Seq<usize>, g: Guest, i: int) -> Option<Seq<usize>>
    decreases g.hart_capacity + g.assigned_hart_capacity - i,
{
    if i >= g.hart_capacity + g.assigned_hart_capacity {
        Some(fl)
    } else {
        match after_guest_load(fl, g.data@.len() as int) {
            None => None,
            Some(f) => after_vcpu_loads(f, g, i + 1),
        }
    }
}

/// The free lists after the vCPUs of the guests from the `j`-th on were
/// loaded; `None` when the heap runs out on the way.
pub open spec fn after_guest_loads(fl: Seq<usize>, gs: Seq<Guest>, j: int) -> Option<Seq<usize>>
    decreases gs.len() - j,
{
    if j < 0 || j >= gs.len() {
        Some(fl)
    } else {
        match after_vcpu_loads(fl, gs[j], 0) {
            None => None,
            Some(f) => after_guest_loads(f, gs, j + 1),
        }
    }
}

/// Loads a guest: copies its image into fresh pages, maps the page of the
/// guest's entry address to them in a fresh page table, and makes the vCPU
/// `virtual_hart_id` that starts the guest there.
#[verifier::spinoff_prover]
pub fn allocate_guest_memory(
    heap: &mut Heap,
    mem: &mut Memory,
    guest_entry_gpa: usize,
    image: &[u8],
    virtual_hart_id: u64,
    vlen: usize,
) -> (r: Result<Vcpu, GuestLoadError>)
    requires
        old(heap).wf(),
        old(heap).memory_clean(old(mem)@),
        old(heap).base_addr % 4096 == 0,
        old(heap).limit@ <= 0x0100_0000_0000_0000,
        image@.len() <= usize::MAX - 4095,
        page_round_up(image@.len() as int) <= isize::MAX - 4095,
    ensures
        final(heap).wf(),
        final(heap).memory_clean(final(mem)@),
        final(heap).base_addr == old(heap).base_addr,
        final(heap).limit@ == old(heap).limit@,
        old(heap).handed_out@.subset_of(final(heap).handed_out@),
        forall|x: int| #[trigger]
            old(heap).handed_out@.contains(x) ==> byte_of(final(mem)@, x) == byte_of(old(mem)@, x),
        r matches Ok(v) ==> {
            &&& v.sepc == guest_entry_gpa
            &&& v.a0 == virtual_hart_id
            &&& v.hstatus == initial_hstatus()
            &&& v.sstatus == initial_sstatus()
            &&& v.vsstatus == initial_vsstatus()
            &&& exists|root: u64, kernel: int| #[trigger] stably_loaded(final(mem)@, final(heap).handed_out@, root, guest_entry_gpa as u64, kernel, image@)
                && v.hgatp == hgatp_value(root)
            &&& v.host_sp == vcpu_stack(old(heap).free_list@, image@.len() as int) + VCPU_STACK_SIZE
            &&& scalars_zero(Vcpu {
                hstatus: 0,
                hgatp: 0,
                sstatus: 0,
                sepc: 0,
                host_sp: 0,
                vsstatus: 0,
                a0: 0,
                ..v
            })
            &&& vector_file_ok(v.vector_registers@, vlen)
            &&& vector_file_zero(v.vector_registers@)
        },
        r is Err ==> heap_short(final(heap).free_list@, image@.len() as int),
        r is Err <==> after_guest_load(old(heap).free_list@, image@.len() as int) is None,
        r is Ok ==> after_guest_load(old(heap).free_list@, image@.len() as int) == Some(final(heap).free_list@),
{
    let ghost h0 = heap.handed_out@;
    let ghost m0 = mem@;
    let ghost fl0 = heap.free_list@;
    let ghost bo = request_order(page_round_up(image@.len() as int));
    proof {
        let sz = if page_round_up(image@.len() as int) < 8 { 8 } else { page_round_up(image@.len() as int) };
        crate::allocator::lemma_order_from(sz, 0);
        vstd::arithmetic::power2::lemma2_to64();
        if bo < 3 {
            crate::allocator::lemma_block_size_monotone(bo, 2);
        }
        assert(bo >= 3);
        crate::allocator::lemma_first_nonempty(fl0, bo);
        if bo < FREE_LIST_LENGTH && fl0[bo] != 0 {
            crate::allocator::lemma_clean_head_link(*old(heap), m0, bo);
        }
    }
    // Copy guest kernel to a guest memory buffer.
    let kernel_memory = match alloc_pages(heap, mem, image.len()) {
        Some(p) => p,
        None => {
            proof {
                let bf = request_order(page_round_up(image@.len() as int));
                crate::allocator::lemma_order_from(
                    if page_round_up(image@.len() as int) < 8 { 8 } else { page_round_up(image@.len() as int) },
                    0,
                );
                crate::allocator::lemma_first_nonempty(old(heap).free_list@, bf);
                if bf >= FREE_LIST_LENGTH {
                    assert(first_nonempty(old(heap).free_list@, bf) == FREE_LIST_LENGTH);
                }
            }
            return Err(GuestLoadError::OutOfMemory);
        },
    };
    let ghost k = request_order(page_round_up(image@.len() as int));
    let ghost fl1 = heap.free_list@;
    proof {
        assert(fl1 == after_clean_alloc(fl0, bo));
        assert(blocks_fit(fl0, bo, 1)) by {
            reveal_with_fuel(blocks_fit, 2);
        }
    }
    let ghost h1 = heap.handed_out@;
    let ghost m1 = mem@;
    proof {
        assert(block_size(k) >= page_round_up(image@.len() as int));
        assert(page_round_up(image@.len() as int) >= image@.len());
    }
    let mut i: usize = 0;
    while i < image.len()
        invariant
            i <= image@.len(),
            heap.wf(),
            heap.memory_clean(mem@),
            heap.handed_out@ == h1,
            heap.free_list@ == fl1,
            h1 == h0.union(block_bytes(kernel_memory as int, k)),
            kernel_memory + block_size(k) <= heap.limit@,
            block_size(k) >= image@.len(),
            heap.limit@ <= 0x0100_0000_0000_0000,
            forall|x: int| !(kernel_memory <= x < kernel_memory + i) ==> #[trigger] byte_of(mem@, x) == byte_of(m1, x),
            forall|j: int| 0 <= j < i ==> #[trigger] byte_of(mem@, kernel_memory + j) == image@[j],
        decreases image@.len() - i,
    {
        let ghost before = mem@;
        mem.write_u8((kernel_memory + i) as u64, image[i]);
        proof {
            assert forall|x: int| !(kernel_memory <= x < kernel_memory + i + 1) implies #[trigger] byte_of(mem@, x) == byte_of(m1, x) by {
                assert(byte_of(mem@, x) == byte_of(before, x));
            }
            assert forall|j: int| 0 <= j < i + 1 implies #[trigger] byte_of(mem@, kernel_memory + j) == image@[j] by {
                if j < i {
                    assert(byte_of(mem@, kernel_memory + j) == byte_of(before, kernel_memory + j));
                }
            }
            assert forall|x: int| heap.base_addr <= x < heap.limit@ && !heap.handed_out@.contains(x) implies #[trigger] byte_of(mem@, x) == 0 by {
                if x != kernel_memory + i {
                    assert(byte_of(mem@, x) == byte_of(before, x));
                } else {
                    assert(block_bytes(kernel_memory as int, k).contains(x));
                }
            }
        }
        i = i + 1;
    }
    let ghost m2 = mem@;
    proof {
        vstd::arithmetic::power2::lemma_pow2_pos(k as nat);
    }
    assert(kernel_memory < 0x0100_0000_0000_0000);
    proof {
        assert forall|x: int| #[trigger] h0.contains(x) implies byte_of(m2, x) == byte_of(m0, x) by {
            assert(byte_of(m1, x) == byte_of(m0, x));
            if kernel_memory <= x < kernel_memory + image@.len() {
                assert(block_bytes(kernel_memory as int, k).contains(x));
            }
        }
    }
    // Map the guest memory into the guest page table.
    let table = match GuestPageTable::new(heap, mem) {
        Some(t) => t,
        None => {
            return Err(GuestLoadError::OutOfMemory);
        },
    };
    let ghost fl2 = heap.free_list@;
    proof {
        crate::allocator::lemma_first_nonempty(fl1, 12);
        assert(first_nonempty(fl1, 12) < FREE_LIST_LENGTH);
        assert(fl2 == after_clean_alloc(fl1, 12));
    }
    let ghost m3 = mem@;
    let ghost h3 = heap.handed_out@;
    proof {
        assert forall|j: int| 0 <= j < image@.len() implies #[trigger] byte_of(m3, kernel_memory + j) == image@[j] by {
            assert(block_bytes(kernel_memory as int, k).contains(kernel_memory + j));
        }
    }
    proof {
        crate::guest_table::lemma_fresh_root_path(m3, table.table as int, guest_entry_gpa as u64);
    }
    let mapped = table.map(heap, mem, guest_entry_gpa as u64, kernel_memory as u64, PTE_R | PTE_W | PTE_X);
    proof {
        crate::guest_table::lemma_fresh_root_path(m3, table.table as int, guest_entry_gpa as u64);
        assert forall|x: int| #[trigger] h0.contains(x) implies byte_of(mem@, x) == byte_of(m0, x) by {
            assert(h3.contains(x));
            assert(byte_of(m3, x) == byte_of(m2, x));
            if table.table <= x < table.table + 4096 {
                assert(!h0.contains(x));
            }
            assert(!on_path(m3, table.table as int, guest_entry_gpa as u64, 3, x));
        }
    }
    match mapped {
        Ok(()) => {},
        Err(MapError::OutOfMemory) => {
            proof {
                assert(first_nonempty(heap.free_list@, 12) == FREE_LIST_LENGTH);
            }
            return Err(GuestLoadError::OutOfMemory);
        },
    }
    let ghost m4 = mem@;
    let ghost fl3 = heap.free_list@;
    proof {
        assert(fl3 == after_clean_allocs(fl1, 12, 4));
        assert forall|j: int| 0 <= j < image@.len() implies #[trigger] byte_of(m4, kernel_memory + j) == image@[j] by {
            let x = kernel_memory + j;
            assert(block_bytes(kernel_memory as int, k).contains(x));
            assert(h3.contains(x));
            assert(!(table.table <= x < table.table + 4096));
            assert(!on_path(m3, table.table as int, guest_entry_gpa as u64, 3, x));
        }
        let h4 = heap.handed_out@;
        assert forall|j: int| 0 <= j < image@.len() implies #[trigger] h4.contains(kernel_memory + j) by {
            assert(block_bytes(kernel_memory as int, k).contains(kernel_memory + j));
        }
        if image@.len() > 0 {
            let sz = if page_round_up(image@.len() as int) < 8 { 8 } else { page_round_up(image@.len() as int) };
            assert(page_round_up(image@.len() as int) >= 4096);
            assert(k == crate::allocator::order_from(sz, 0));
            crate::allocator::lemma_order_from(sz, 0);
            vstd::arithmetic::power2::lemma2_to64();
            if k < 12 {
                crate::allocator::lemma_block_size_monotone(k, 11);
                assert(false);
            }
            crate::allocator::lemma_aligned_offset(kernel_memory - heap.base_addr, 12, k);
            assert(block_size(12) == 4096);
            vstd::arithmetic::div_mod::lemma_mod_adds(kernel_memory - heap.base_addr, heap.base_addr as int, 4096);
            assert(kernel_memory % 4096 == 0);
        }
    }
    let ghost h4 = heap.handed_out@;
    let vcpu = Vcpu::new(&table, guest_entry_gpa as u64, virtual_hart_id, heap, mem, vlen);
    match vcpu {
        Some(v) => {
            proof {
                assert forall|j: int| 0 <= j < image@.len() implies #[trigger] byte_of(mem@, kernel_memory + j) == image@[j] by {
                    let x = kernel_memory + j;
                    assert(block_bytes(kernel_memory as int, k).contains(x));
                }
                assert(stably_loaded(m4, h4, table.table, guest_entry_gpa as u64, kernel_memory as int, image@));
                assert(blocks_fit(fl2, 12, 3));
                assert(blocks_fit(fl1, 12, 4));
                crate::allocator::lemma_first_nonempty(fl3, 19);
                assert(first_nonempty(fl3, 19) < FREE_LIST_LENGTH);
                assert(blocks_fit(fl3, 19, 1)) by {
                    reveal_with_fuel(blocks_fit, 2);
                }
                lemma_stably_loaded_kept(m4, h4, mem@, heap.handed_out@, table.table, guest_entry_gpa as u64, kernel_memory as int, image@);
            }
            Ok(v)
        },
        None => Err(GuestLoadError::OutOfMemory),
    }
}

/// Why the guests could not be set up.
#[derive(Debug, Clone, Copy, PartialEq, Eq)]
pub enum InitError {
    /// The heap ran out of memory.
    OutOfMemory,
    /// A guest's hart capacities add up past the largest `usize`.
    CapacityOverflow,
    /// A guest has fewer vCPU slots, or pool slots, than its capacities.
    VcpuSlotMissing,
    /// A guest's image is too large to be allocated.
    ImageTooLarge,
    /// A guest names an assigned hart that does not exist.
    AssignedHartOutOfRange,
    /// A guest's pool ran out while handing vCPUs to its assigned harts.
    NoVcpuLeft,
}

/// Slot `i` of guest `g` holds a vCPU that starts the guest's image, loaded
/// in memory `m` within the bytes `handed`.
pub open spec fn vcpu_loaded(g: Guest, i: int, m: Map<u64, u8>, handed: Set<int>) -> bool {
    &&& 0 <= i < g.vcpus@.len()
    &&& g.vcpus@[i] is Some
    &&& g.vcpus@[i]->0.sepc == g.entry_gpa
    &&& g.vcpus@[i]->0.a0 == i
    &&& exists|root: u64, kernel: int| #[trigger] stably_loaded(m, handed, root, g.entry_gpa as u64, kernel, g.data@)
        && g.vcpus@[i]->0.hgatp == hgatp_value(root)
}

/// Every vCPU slot of `g` up to its capacities is loaded.
pub open spec fn guest_loaded(g: Guest, m: Map<u64, u8>, handed: Set<int>) -> bool {
    forall|i: int| 0 <= i < g.hart_capacity + g.assigned_hart_capacity ==> #[trigger] vcpu_loaded(g, i, m, handed)
}

proof fn lemma_vcpu_loaded_kept(g: Guest, i: int, m: Map<u64, u8>, handed: Set<int>, m2: Map<u64, u8>, handed2: Set<int>)
    requires
        vcpu_loaded(g, i, m, handed),
        handed.subset_of(handed2),
        forall|x: int| #[trigger] handed.contains(x) ==> byte_of(m2, x) == byte_of(m, x),
    ensures
        vcpu_loaded(g, i, m2, handed2),
{
    let (root, kernel) = choose|root: u64, kernel: int| #[trigger] stably_loaded(m, handed, root, g.entry_gpa as u64, kernel, g.data@)
        && g.vcpus@[i]->0.hgatp == hgatp_value(root);
    lemma_stably_loaded_kept(m, handed, m2, handed2, root, g.entry_gpa as u64, kernel, g.data@);
}

/// The pool and the dedicated slots of an assigned hart after each empty
/// slot, from slot `k` on and in order, took the pool's first vCPU; `None`
/// when the pool has none left for an empty slot.
pub open spec fn fill_outcome(
    pool: Seq<Option<VcpuRef>>,
    slots: Seq<Option<VcpuRef>>,
    k: int,
) -> Option<(Seq<Option<VcpuRef>>, Seq<Option<VcpuRef>>)>
    decreases slots.len() - k,
{
    if k >= slots.len() || k < 0 {
        Some((pool, slots))
    } else if slots[k] is Some {
        fill_outcome(pool, slots, k + 1)
    } else if pool.len() == 0 || pool[0] is None {
        None
    } else {
        fill_outcome(pool_after_take(pool), slots.update(k, pool[0]), k + 1)
    }
}

/// Hands the first vCPUs of a guest's pool to the empty dedicated slots of
/// one of its assigned harts.  `Err` when the pool runs out.
pub fn fill_dedicated_slots(pool: &mut Vec<Option<VcpuRef>>, slots: &mut Vec<Option<VcpuRef>>) -> (r: Result<(), ()>)
    ensures
        match fill_outcome(old(pool)@, old(slots)@, 0) {
            Some((p, s)) => r is Ok && final(pool)@ == p && final(slots)@ == s,
            None => r is Err,
        },
{
    let mut id: usize = 0;
    while id < slots.len()
        invariant
            id <= slots@.len(),
            slots@.len() == old(slots)@.len(),
            fill_outcome(pool@, slots@, id as int) == fill_outcome(old(pool)@, old(slots)@, 0),
        decreases slots@.len() - id,
    {
        if slots[id].is_none() {
            if pool.len() == 0 {
                return Err(());
            }
            match pool[0] {
                None => {
                    return Err(());
                },
                Some(v) => {
                    let ghost pb = pool@;
                    // First values of the vcpu_ptrs array are intended for assigned harts.
                    slots.set(id, Some(v));
                    // Remove the vcpu pointer of a assigned hart from the vcpu_ptrs array.
                    pool.set(0, None);
                    rotate_pool_left(pool);
                    proof {
                        assert(pool@ =~= pool_after_take(pb));
                    }
                },
            }
        }
        id = id + 1;
    }
    Ok(())
}

proof fn lemma_guest_loaded_kept(g: Guest, m: Map<u64, u8>, handed: Set<int>, m2: Map<u64, u8>, handed2: Set<int>)
    requires
        guest_loaded(g, m, handed),
        handed.subset_of(handed2),
        forall|x: int| #[trigger] handed.contains(x) ==> byte_of(m2, x) == byte_of(m, x),
    ensures
        guest_loaded(g, m2, handed2),
{
    assert forall|i: int| 0 <= i < g.hart_capacity + g.assigned_hart_capacity implies #[trigger] vcpu_loaded(g, i, m2, handed2) by {
        lemma_vcpu_loaded_kept(g, i, m, handed, m2, handed2);
    }
}

/// Slot `i` of guest `g` cannot take a vCPU: the guest has no such vCPU slot
/// or pool slot, or the vCPU slot is empty.
pub open spec fn slot_fault(g: Guest, i: int) -> bool {
    i >= g.vcpus@.len() || i >= g.vcpu_ptrs@.len() || g.vcpus@[i] is None
}

/// An image of `n` bytes is too large to be given pages.
pub open spec fn image_too_large(n: int) -> bool {
    n > usize::MAX - 4095 || page_round_up(n) > isize::MAX - 4095
}

/// The hart capacities of `g` add up past the largest `usize`.
pub open spec fn capacities_overflow(g: Guest) -> bool {
    g.hart_capacity + g.assigned_hart_capacity > usize::MAX
}

/// The `a`-th assigned hart of `g` is not among `hart_count` harts.
pub open spec fn assigned_hart_missing(g: Guest, a: int, hart_count: int) -> bool {
    &&& 0 <= a < g.assigned_harts@.len()
    &&& g.assigned_harts@[a] is Some
    &&& g.assigned_harts@[a]->0 >= hart_count
}

/// The pool of guest `g`, the `j`-th guest, once its slots below `i` hold
/// its own vCPUs, each at its own slot.
pub open spec fn pool_loaded_upto(g: Guest, j: int, i: int) -> Seq<Option<VcpuRef>> {
    Seq::new(
        g.vcpu_ptrs@.len(),
        |k: int|
            if k < i {
                Some(VcpuRef { guest: j as usize, slot: k as usize })
            } else {
                g.vcpu_ptrs@[k]
            },
    )
}

/// The pool of guest `g`, the `j`-th guest, once its vCPUs are loaded.
pub open spec fn loaded_pool(g: Guest, j: int) -> Seq<Option<VcpuRef>> {
    pool_loaded_upto(g, j, g.hart_capacity + g.assigned_hart_capacity)
}

/// The guest fields that loading keeps: all but the vCPUs and the pool.
pub open spec fn same_guest_setup(g: Guest, g2: Guest) -> bool {
    &&& g2.entry_gpa == g.entry_gpa
    &&& g2.hart_capacity == g.hart_capacity
    &&& g2.assigned_hart_capacity == g.assigned_hart_capacity
    &&& g2.active_hart_count == g.active_hart_count
    &&& g2.active_assigned_hart_count == g.active_assigned_hart_count
    &&& g2.assigned_harts@ == g.assigned_harts@
    &&& g2.data@ == g.data@
}

/// Loads the vCPUs of guest `gi`, one per place of its capacities, and puts
/// each in the guest's pool at its own slot.
fn load_guest_vcpus(
    guests: &mut Vec<Guest>,
    gi: usize,
    heap: &mut Heap,
    mem: &mut Memory,
    vlen: usize,
) -> (r: Result<(), InitError>)
    requires
        gi < old(guests)@.len(),
        old(heap).wf(),
        old(heap).memory_clean(old(mem)@),
        old(heap).base_addr % 4096 == 0,
        old(heap).limit@ <= 0x0100_0000_0000_0000,
    ensures
        final(heap).wf(),
        final(heap).memory_clean(final(mem)@),
        final(heap).base_addr == old(heap).base_addr,
        final(heap).limit@ == old(heap).limit@,
        old(heap).handed_out@.subset_of(final(heap).handed_out@),
        forall|x: int| #[trigger]
            old(heap).handed_out@.contains(x) ==> byte_of(final(mem)@, x) == byte_of(old(mem)@, x),
        final(guests)@.len() == old(guests)@.len(),
        forall|j: int| 0 <= j < old(guests)@.len() && j != gi ==> #[trigger] final(guests)@[j] == old(guests)@[j],
        same_guest_setup(old(guests)@[gi as int], final(guests)@[gi as int]),
        r is Ok ==> guest_loaded(final(guests)@[gi as int], final(mem)@, final(heap).handed_out@),
        r is Ok ==> final(guests)@[gi as int].vcpu_ptrs@ == loaded_pool(old(guests)@[gi as int], gi as int),
        r is Ok ==> after_vcpu_loads(old(heap).free_list@, old(guests)@[gi as int], 0) == Some(final(heap).free_list@),
        r == Err::<(), InitError>(InitError::OutOfMemory) ==> after_vcpu_loads(
            old(heap).free_list@,
            old(guests)@[gi as int],
            0,
        ) is None,
        ({
            let g = old(guests)@[gi as int];
            &&& r == Err::<(), InitError>(InitError::ImageTooLarge) ==> g.hart_capacity
                + g.assigned_hart_capacity > 0
            &&& r == Err::<(), InitError>(InitError::CapacityOverflow) ==> g.hart_capacity
                + g.assigned_hart_capacity > usize::MAX
            &&& r == Err::<(), InitError>(InitError::VcpuSlotMissing) ==> exists|i: int|
                0 <= i < g.hart_capacity + g.assigned_hart_capacity && #[trigger] slot_fault(g, i)
            &&& r == Err::<(), InitError>(InitError::ImageTooLarge) ==> image_too_large(
                g.data@.len() as int,
            )
            &&& r == Err::<(), InitError>(InitError::OutOfMemory) ==> heap_short(
                final(heap).free_list@,
                g.data@.len() as int,
            )
            &&& r is Err ==> r == Err::<(), InitError>(InitError::OutOfMemory) || r == Err::<
                (),
                InitError,
            >(InitError::CapacityOverflow) || r == Err::<(), InitError>(InitError::VcpuSlotMissing)
                || r == Err::<(), InitError>(InitError::ImageTooLarge)
        }),
{
    let total = match guests[gi].hart_capacity.checked_add(guests[gi].assigned_hart_capacity) {
        Some(t) => t,
        None => {
            return Err(InitError::CapacityOverflow);
        },
    };
    let ghost h0 = heap.handed_out@;
    let ghost m0 = mem@;
    let mut i: usize = 0;
    proof {
        assert(guests@[gi as int].vcpu_ptrs@ =~= pool_loaded_upto(old(guests)@[gi as int], gi as int, 0));
    }
    while i < total
        invariant
            gi < guests@.len(),
            guests@.len() == old(guests)@.len(),
            total == guests@[gi as int].hart_capacity + guests@[gi as int].assigned_hart_capacity,
            i <= total,
            heap.wf(),
            heap.memory_clean(mem@),
            heap.base_addr == old(heap).base_addr,
            heap.limit@ == old(heap).limit@,
            heap.base_addr % 4096 == 0,
            heap.limit@ <= 0x0100_0000_0000_0000,
            h0 == old(heap).handed_out@,
            m0 == old(mem)@,
            h0.subset_of(heap.handed_out@),
            forall|x: int| #[trigger] h0.contains(x) ==> byte_of(mem@, x) == byte_of(m0, x),
            forall|j: int| 0 <= j < old(guests)@.len() && j != gi ==> #[trigger] guests@[j] == old(guests)@[j],
            same_guest_setup(old(guests)@[gi as int], guests@[gi as int]),
            forall|j: int| 0 <= j < i ==> #[trigger] vcpu_loaded(guests@[gi as int], j, mem@, heap.handed_out@),
            guests@[gi as int].vcpus@.len() == old(guests)@[gi as int].vcpus@.len(),
            guests@[gi as int].vcpu_ptrs@.len() == old(guests)@[gi as int].vcpu_ptrs@.len(),
            forall|k: int| i <= k < guests@[gi as int].vcpus@.len() ==> #[trigger] guests@[gi as int].vcpus@[k]
                == old(guests)@[gi as int].vcpus@[k],
            guests@[gi as int].vcpu_ptrs@ == pool_loaded_upto(old(guests)@[gi as int], gi as int, i as int),
            after_vcpu_loads(old(heap).free_list@, old(guests)@[gi as int], 0) == after_vcpu_loads(
                heap.free_list@,
                old(guests)@[gi as int],
                i as int,
            ),
        decreases total - i,
    {
        proof {
            if i >= guests@[gi as int].vcpus@.len() || i >= guests@[gi as int].vcpu_ptrs@.len()
                || guests@[gi as int].vcpus@[i as int] is None {
                assert(slot_fault(old(guests)@[gi as int], i as int));
            }
        }
        if i >= guests[gi].vcpus.len() || i >= guests[gi].vcpu_ptrs.len() {
            return Err(InitError::VcpuSlotMissing);
        }
        if guests[gi].vcpus[i].is_none() {
            return Err(InitError::VcpuSlotMissing);
        }
        let data_len = guests[gi].data.len();
        if data_len > usize::MAX - 4095 {
            return Err(InitError::ImageTooLarge);
        }
        let rounded = (data_len + 4095) / 4096 * 4096;
        if rounded > (isize::MAX as usize) - 4095 {
            return Err(InitError::ImageTooLarge);
        }
        let ghost m1 = mem@;
        let ghost h1 = heap.handed_out@;
        let ghost g1 = guests@[gi as int];
        let ghost fl1 = heap.free_list@;
        proof {
            assert(g1.data@ == old(guests)@[gi as int].data@);
        }
        let entry = guests[gi].entry_gpa;
        // Load the allocated vcpu instead of an empty slot into guest.vcpus[i].
        let loaded = allocate_guest_memory(heap, mem, entry, guests[gi].data.as_slice(), i as u64, vlen);
        let vcpu = match loaded {
            Ok(v) => v,
            Err(_) => {
                return Err(InitError::OutOfMemory);
            },
        };
        guests[gi].vcpus.set(i, Some(vcpu));
        // Load this vcpu pointer into guest.vcpu_ptrs[i].
        guests[gi].vcpu_ptrs.set(i, Some(VcpuRef { guest: gi, slot: i }));
        proof {
            assert(guests@[gi as int].vcpu_ptrs@ =~= pool_loaded_upto(old(guests)@[gi as int], gi as int, i + 1));
            let g2 = guests@[gi as int];
            assert forall|j: int| 0 <= j < i + 1 implies #[trigger] vcpu_loaded(g2, j, mem@, heap.handed_out@) by {
                if j < i {
                    assert(vcpu_loaded(g1, j, m1, h1));
                    lemma_vcpu_loaded_kept(g1, j, m1, h1, mem@, heap.handed_out@);
                    assert(g2.vcpus@[j] == g1.vcpus@[j]);
                    let (root, kernel) = choose|root: u64, kernel: int| #[trigger] stably_loaded(mem@, heap.handed_out@, root, g1.entry_gpa as u64, kernel, g1.data@)
                        && g1.vcpus@[j]->0.hgatp == hgatp_value(root);
                    assert(stably_loaded(mem@, heap.handed_out@, root, g2.entry_gpa as u64, kernel, g2.data@));
                } else {
                    let (root, kernel) = choose|root: u64, kernel: int| #[trigger] stably_loaded(mem@, heap.handed_out@, root, entry as u64, kernel, g1.data@)
                        && vcpu.hgatp == hgatp_value(root);
                    assert(stably_loaded(mem@, heap.handed_out@, root, g2.entry_gpa as u64, kernel, g2.data@));
                }
            }
            assert forall|x: int| #[trigger] h0.contains(x) implies byte_of(mem@, x) == byte_of(m0, x) by {
                assert(h1.contains(x));
            }
        }
        i = i + 1;
    }
    Ok(())
}

/// What keeps guest `g` from being set up among `hart_count` harts, checked
/// before anything is loaded, in this order: capacities that overflow, a
/// slot below the capacities that cannot take a vCPU, an image too large to
/// be given pages (for a guest with vCPUs to load), an assigned hart that
/// does not exist.
pub open spec fn guest_fault(g: Guest, hart_count: int) -> Option<InitError> {
    let total = g.hart_capacity + g.assigned_hart_capacity;
    if total > usize::MAX {
        Some(InitError::CapacityOverflow)
    } else if exists|i: int| 0 <= i < total && #[trigger] slot_fault(g, i) {
        Some(InitError::VcpuSlotMissing)
    } else if total > 0 && image_too_large(g.data@.len() as int) {
        Some(InitError::ImageTooLarge)
    } else if exists|a: int| #[trigger] assigned_hart_missing(g, a, hart_count) {
        Some(InitError::AssignedHartOutOfRange)
    } else {
        None
    }
}

/// The fault of the first of the first `n` guests that has one.
pub open spec fn first_fault(gs: Seq<Guest>, hart_count: int, n: int) -> Option<InitError>
    decreases n,
{
    if n <= 0 {
        None
    } else {
        match first_fault(gs, hart_count, n - 1) {
            Some(e) => Some(e),
            None => guest_fault(gs[n - 1], hart_count),
        }
    }
}

/// The pools of the guests.
pub open spec fn pools_of(gs: Seq<Guest>) -> Seq<Seq<Option<VcpuRef>>> {
    Seq::new(gs.len(), |j: int| gs[j].vcpu_ptrs@)
}

/// The pools of the guests once their vCPUs are loaded.
pub open spec fn loaded_pools(gs: Seq<Guest>) -> Seq<Seq<Option<VcpuRef>>> {
    Seq::new(gs.len(), |j: int| loaded_pool(gs[j], j))
}

/// The dedicated slots of the harts.
pub open spec fn dedicated_of(hs: Seq<Hart>) -> Seq<Seq<Option<VcpuRef>>> {
    Seq::new(hs.len(), |h: int| hs[h].dedicated_to@)
}

/// The pool `pool` of a guest and the harts' dedicated slots `ded` after
/// the empty dedicated slots of the guest's assigned harts `ids`, from the
/// `a`-th on, took vCPUs from the pool ([`fill_outcome`]); `None` when the
/// pool runs out.
pub open spec fn fill_assigned(
    pool: Seq<Option<VcpuRef>>,
    ded: Seq<Seq<Option<VcpuRef>>>,
    ids: Seq<Option<u32>>,
    a: int,
) -> Option<(Seq<Option<VcpuRef>>, Seq<Seq<Option<VcpuRef>>>)>
    decreases ids.len() - a,
{
    if a < 0 || a >= ids.len() {
        Some((pool, ded))
    } else {
        match ids[a] {
            None => fill_assigned(pool, ded, ids, a + 1),
            Some(h) => match fill_outcome(pool, ded[h as int], 0) {
                None => None,
                Some((p2, s2)) => fill_assigned(p2, ded.update(h as int, s2), ids, a + 1),
            },
        }
    }
}

/// The pools and the dedicated slots after the guests, from the `j`-th on,
/// filled the dedicated slots of their assigned harts.
pub open spec fn fill_guests(
    pools: Seq<Seq<Option<VcpuRef>>>,
    ded: Seq<Seq<Option<VcpuRef>>>,
    gs: Seq<Guest>,
    j: int,
) -> Option<(Seq<Seq<Option<VcpuRef>>>, Seq<Seq<Option<VcpuRef>>>)>
    decreases gs.len() - j,
{
    if j < 0 || j >= gs.len() {
        Some((pools, ded))
    } else {
        match fill_assigned(pools[j], ded, gs[j].assigned_harts@, 0) {
            None => None,
            Some((p, d)) => fill_guests(pools.update(j, p), d, gs, j + 1),
        }
    }
}

/// The same, with the `j`-th guest's assigned harts taken from the `a`-th on.
pub open spec fn fill_from(
    pools: Seq<Seq<Option<VcpuRef>>>,
    ded: Seq<Seq<Option<VcpuRef>>>,
    gs: Seq<Guest>,
    j: int,
    a: int,
) -> Option<(Seq<Seq<Option<VcpuRef>>>, Seq<Seq<Option<VcpuRef>>>)> {
    match fill_assigned(pools[j], ded, gs[j].assigned_harts@, a) {
        None => None,
        Some((p, d)) => fill_guests(pools.update(j, p), d, gs, j + 1),
    }
}

/// `(i, k)` is a position of the table `t`.
pub open spec fn in_table(t: Seq<Seq<Option<VcpuRef>>>, i: int, k: int) -> bool {
    0 <= i < t.len() && 0 <= k < t[i].len()
}

/// No vCPU is named at two places of the pools `p` and the dedicated slots
/// `d`.
pub open spec fn names_each_once(p: Seq<Seq<Option<VcpuRef>>>, d: Seq<Seq<Option<VcpuRef>>>) -> bool {
    &&& forall|i1: int, k1: int, i2: int, k2: int|
        #![trigger p[i1][k1], p[i2][k2]]
        in_table(p, i1, k1) && in_table(p, i2, k2) && (i1 != i2 || k1 != k2) && p[i1][k1] is Some
            ==> p[i1][k1] != p[i2][k2]
    &&& forall|i1: int, k1: int, i2: int, k2: int|
        #![trigger d[i1][k1], d[i2][k2]]
        in_table(d, i1, k1) && in_table(d, i2, k2) && (i1 != i2 || k1 != k2) && d[i1][k1] is Some
            ==> d[i1][k1] != d[i2][k2]
    &&& forall|i1: int, k1: int, i2: int, k2: int|
        #![trigger p[i1][k1], d[i2][k2]]
        in_table(p, i1, k1) && in_table(d, i2, k2) && p[i1][k1] is Some ==> p[i1][k1] != d[i2][k2]
}

/// Moving the first vCPU of pool `j` into the empty dedicated slot `k` of
/// hart `h` names no vCPU twice.
proof fn lemma_move_names_once(
    p: Seq<Seq<Option<VcpuRef>>>,
    d: Seq<Seq<Option<VcpuRef>>>,
    j: int,
    h: int,
    k: int,
)
    requires
        names_each_once(p, d),
        0 <= j < p.len(),
        0 <= h < d.len(),
        0 <= k < d[h].len(),
        d[h][k] is None,
        p[j].len() > 0,
        p[j][0] is Some,
    ensures
        names_each_once(p.update(j, pool_after_take(p[j])), d.update(h, d[h].update(k, p[j][0]))),
{
    let v = p[j][0];
    let p2 = p.update(j, pool_after_take(p[j]));
    let d2 = d.update(h, d[h].update(k, v));
    // Where each entry of the new tables was before.
    assert forall|i: int, m: int| #[trigger] in_table(p2, i, m) implies p2[i][m] is None || (i != j && p2[i][m] == p[i][m])
        || (i == j && m + 1 < p[j].len() && p2[i][m] == p[j][m + 1]) by {}
    assert forall|i1: int, k1: int, i2: int, k2: int|
        #![trigger p2[i1][k1], p2[i2][k2]]
        in_table(p2, i1, k1) && in_table(p2, i2, k2) && (i1 != i2 || k1 != k2) && p2[i1][k1] is Some
            implies p2[i1][k1] != p2[i2][k2] by {
        assert(in_table(p2, i1, k1));
        assert(in_table(p2, i2, k2));
        let a1 = if i1 == j { k1 + 1 } else { k1 };
        let a2 = if i2 == j { k2 + 1 } else { k2 };
        if p2[i2][k2] is Some {
            assert(p[i1][a1] == p2[i1][k1]);
            assert(p[i2][a2] == p2[i2][k2]);
            assert(in_table(p, i1, a1) && in_table(p, i2, a2));
        }
    }
    assert forall|i1: int, k1: int, i2: int, k2: int|
        #![trigger d2[i1][k1], d2[i2][k2]]
        in_table(d2, i1, k1) && in_table(d2, i2, k2) && (i1 != i2 || k1 != k2) && d2[i1][k1] is Some
            implies d2[i1][k1] != d2[i2][k2] by {
        let n1 = i1 == h && k1 == k;
        let n2 = i2 == h && k2 == k;
        if n1 {
            assert(d2[i1][k1] == v);
            if d2[i2][k2] is Some {
                assert(d2[i2][k2] == d[i2][k2]);
                assert(in_table(p, j, 0));
                assert(in_table(d, i2, k2));
                assert(p[j][0] != d[i2][k2]);
            }
        } else if n2 {
            assert(d2[i1][k1] == d[i1][k1]);
            assert(in_table(p, j, 0));
            assert(in_table(d, i1, k1));
            assert(p[j][0] != d[i1][k1]);
        } else {
            assert(d2[i1][k1] == d[i1][k1]);
            assert(d2[i2][k2] == d[i2][k2]);
            assert(in_table(d, i1, k1) && in_table(d, i2, k2));
        }
    }
    assert forall|i1: int, k1: int, i2: int, k2: int|
        #![trigger p2[i1][k1], d2[i2][k2]]
        in_table(p2, i1, k1) && in_table(d2, i2, k2) && p2[i1][k1] is Some implies p2[i1][k1] != d2[i2][k2] by {
        assert(in_table(p2, i1, k1));
        let a1 = if i1 == j { k1 + 1 } else { k1 };
        assert(p[i1][a1] == p2[i1][k1]);
        assert(in_table(p, i1, a1));
        if i2 == h && k2 == k {
            assert(d2[i2][k2] == v);
            assert(in_table(p, j, 0));
            assert(i1 != j || a1 != 0);
            assert(p[i1][a1] != p[j][0]);
        } else {
            assert(d2[i2][k2] == d[i2][k2]);
            assert(in_table(d, i2, k2));
        }
    }
}

/// Filling the slots of hart `h` from pool `j` names no vCPU twice.
proof fn lemma_fill_outcome_names_once(
    p: Seq<Seq<Option<VcpuRef>>>,
    d: Seq<Seq<Option<VcpuRef>>>,
    j: int,
    h: int,
    k: int,
)
    requires
        names_each_once(p, d),
        0 <= j < p.len(),
        0 <= h < d.len(),
        0 <= k,
    ensures
        fill_outcome(p[j], d[h], k) matches Some((p2, s2)) ==> names_each_once(p.update(j, p2), d.update(h, s2)),
    decreases d[h].len() - k,
{
    let pool = p[j];
    let slots = d[h];
    if k >= slots.len() {
        assert(p.update(j, pool) =~= p);
        assert(d.update(h, slots) =~= d);
    } else if slots[k] is Some {
        lemma_fill_outcome_names_once(p, d, j, h, k + 1);
    } else if pool.len() == 0 || pool[0] is None {
    } else {
        lemma_move_names_once(p, d, j, h, k);
        let p1 = p.update(j, pool_after_take(pool));
        let d1 = d.update(h, slots.update(k, pool[0]));
        assert(p1[j] == pool_after_take(pool));
        assert(d1[h] == slots.update(k, pool[0]));
        lemma_fill_outcome_names_once(p1, d1, j, h, k + 1);
        match fill_outcome(p1[j], d1[h], k + 1) {
            Some((p2, s2)) => {
                assert(p1.update(j, p2) =~= p.update(j, p2));
                assert(d1.update(h, s2) =~= d.update(h, s2));
            },
            None => {},
        }
    }
}

/// Filling the slots of the assigned harts `ids` of guest `j`, from the
/// `a`-th on, names no vCPU twice.
proof fn lemma_fill_assigned_names_once(
    p: Seq<Seq<Option<VcpuRef>>>,
    d: Seq<Seq<Option<VcpuRef>>>,
    j: int,
    ids: Seq<Option<u32>>,
    a: int,
)
    requires
        names_each_once(p, d),
        0 <= j < p.len(),
        forall|b: int| 0 <= b < ids.len() && #[trigger] ids[b] is Some ==> ids[b]->0 < d.len(),
    ensures
        fill_assigned(p[j], d, ids, a) matches Some((p2, d2)) ==> names_each_once(p.update(j, p2), d2),
    decreases ids.len() - a,
{
    if a < 0 || a >= ids.len() {
        assert(p.update(j, p[j]) =~= p);
    } else {
        match ids[a] {
            None => {
                lemma_fill_assigned_names_once(p, d, j, ids, a + 1);
            },
            Some(h) => {
                lemma_fill_outcome_names_once(p, d, j, h as int, 0);
                match fill_outcome(p[j], d[h as int], 0) {
                    None => {},
                    Some((p2, s2)) => {
                        let p1 = p.update(j, p2);
                        let d1 = d.update(h as int, s2);
                        assert(p1[j] == p2);
                        lemma_fill_assigned_names_once(p1, d1, j, ids, a + 1);
                        match fill_assigned(p2, d1, ids, a + 1) {
                            Some((p3, d3)) => {
                                assert(p1.update(j, p3) =~= p.update(j, p3));
                            },
                            None => {},
                        }
                    },
                }
            },
        }
    }
}

/// Filling the dedicated slots of the assigned harts of the guests, from the
/// `j`-th on, names no vCPU twice.
proof fn lemma_fill_guests_names_once(
    p: Seq<Seq<Option<VcpuRef>>>,
    d: Seq<Seq<Option<VcpuRef>>>,
    gs: Seq<Guest>,
    j: int,
)
    requires
        names_each_once(p, d),
        p.len() == gs.len(),
        forall|i: int, b: int|
            0 <= i < gs.len() && 0 <= b < gs[i].assigned_harts@.len() && #[trigger] gs[i].assigned_harts@[b] is Some
                ==> gs[i].assigned_harts@[b]->0 < d.len(),
    ensures
        fill_guests(p, d, gs, j) matches Some((p2, d2)) ==> names_each_once(p2, d2),
    decreases gs.len() - j,
{
    if 0 <= j < gs.len() {
        let ids = gs[j].assigned_harts@;
        assert forall|b: int| 0 <= b < ids.len() && #[trigger] ids[b] is Some implies ids[b]->0 < d.len() by {
            assert(gs[j].assigned_harts@[b] is Some);
        }
        lemma_fill_assigned_names_once(p, d, j, ids, 0);
        match fill_assigned(p[j], d, ids, 0) {
            None => {},
            Some((p1, d1)) => {
                lemma_fill_assigned_len(p[j], d, ids, 0);
                lemma_fill_guests_names_once(p.update(j, p1), d1, gs, j + 1);
            },
        }
    }
}

/// Filling keeps the number of harts.
proof fn lemma_fill_assigned_len(
    pool: Seq<Option<VcpuRef>>,
    d: Seq<Seq<Option<VcpuRef>>>,
    ids: Seq<Option<u32>>,
    a: int,
)
    requires
        forall|b: int| 0 <= b < ids.len() && #[trigger] ids[b] is Some ==> ids[b]->0 < d.len(),
    ensures
        fill_assigned(pool, d, ids, a) matches Some((p2, d2)) ==> d2.len() == d.len(),
    decreases ids.len() - a,
{
    if 0 <= a < ids.len() {
        match ids[a] {
            None => lemma_fill_assigned_len(pool, d, ids, a + 1),
            Some(h) => match fill_outcome(pool, d[h as int], 0) {
                None => {},
                Some((p2, s2)) => lemma_fill_assigned_len(p2, d.update(h as int, s2), ids, a + 1),
            },
        }
    }
}

/// Setting guests up hands no vCPU to two places: when the pools and the
/// dedicated slots start empty and every assigned hart exists, the pools
/// and the dedicated slots that the set-up fills ([`fill_guests`] of the
/// loaded pools) name each vCPU at most once.
pub proof fn lemma_setup_names_each_vcpu_once(gs: Seq<Guest>, hs: Seq<Hart>)
    requires
        gs.len() <= usize::MAX,
        forall|j: int| 0 <= j < gs.len() ==> #[trigger] gs[j].vcpu_ptrs@.len() <= usize::MAX,
        forall|j: int, k: int|
            0 <= j < gs.len() && 0 <= k < gs[j].vcpu_ptrs@.len() ==> #[trigger] gs[j].vcpu_ptrs@[k] is None,
        forall|h: int, k: int|
            0 <= h < hs.len() && 0 <= k < hs[h].dedicated_to@.len() ==> #[trigger] hs[h].dedicated_to@[k] is None,
        forall|j: int, a: int|
            0 <= j < gs.len() && 0 <= a < gs[j].assigned_harts@.len() && #[trigger] gs[j].assigned_harts@[a] is Some
                ==> gs[j].assigned_harts@[a]->0 < hs.len(),
    ensures
        fill_guests(loaded_pools(gs), dedicated_of(hs), gs, 0) matches Some((p, d)) ==> names_each_once(p, d),
{
    let p = loaded_pools(gs);
    let d = dedicated_of(hs);
    assert forall|i: int, k: int| #[trigger] in_table(p, i, k) implies p[i][k] is None || p[i][k] == Some(
        VcpuRef { guest: i as usize, slot: k as usize },
    ) by {
        assert(gs[i].vcpu_ptrs@[k] is None);
    }
    assert forall|i1: int, k1: int, i2: int, k2: int|
        #![trigger p[i1][k1], p[i2][k2]]
        in_table(p, i1, k1) && in_table(p, i2, k2) && (i1 != i2 || k1 != k2) && p[i1][k1] is Some
            implies p[i1][k1] != p[i2][k2] by {
        assert(in_table(p, i1, k1));
        assert(in_table(p, i2, k2));
        assert(gs[i1].vcpu_ptrs@.len() <= usize::MAX);
        assert(gs[i2].vcpu_ptrs@.len() <= usize::MAX);
    }
    assert forall|i: int, k: int| #[trigger] in_table(d, i, k) implies d[i][k] is None by {
        assert(hs[i].dedicated_to@[k] is None);
    }
    assert forall|i1: int, k1: int, i2: int, k2: int|
        #![trigger p[i1][k1], d[i2][k2]]
        in_table(p, i1, k1) && in_table(d, i2, k2) && p[i1][k1] is Some implies p[i1][k1] != d[i2][k2] by {
        assert(in_table(d, i2, k2));
    }
    assert forall|i1: int, k1: int, i2: int, k2: int|
        #![trigger d[i1][k1], d[i2][k2]]
        in_table(d, i1, k1) && in_table(d, i2, k2) && (i1 != i2 || k1 != k2) && d[i1][k1] is Some
            implies d[i1][k1] != d[i2][k2] by {
        assert(in_table(d, i1, k1));
    }
    lemma_fill_guests_names_once(p, d, gs, 0);
}

/// Every vCPU in `pool` is one of the first `total` vCPUs of guest `j`.
pub open spec fn own_refs(pool: Seq<Option<VcpuRef>>, j: int, total: int) -> bool {
    forall|k: int|
        0 <= k < pool.len() && #[trigger] pool[k] is Some ==> pool[k]->0.guest == j && pool[k]->0.slot < total
}

proof fn lemma_fill_outcome_own_refs(pool: Seq<Option<VcpuRef>>, slots: Seq<Option<VcpuRef>>, k: int, j: int, total: int)
    requires
        own_refs(pool, j, total),
    ensures
        fill_outcome(pool, slots, k) matches Some((p2, s2)) ==> own_refs(p2, j, total),
    decreases slots.len() - k,
{
    if k >= slots.len() || k < 0 {
    } else if slots[k] is Some {
        lemma_fill_outcome_own_refs(pool, slots, k + 1, j, total);
    } else if pool.len() == 0 || pool[0] is None {
    } else {
        let p1 = pool_after_take(pool);
        assert forall|m: int| 0 <= m < p1.len() && #[trigger] p1[m] is Some implies p1[m]->0.guest == j
            && p1[m]->0.slot < total by {
            assert(p1[m] == pool[m + 1]);
        }
        lemma_fill_outcome_own_refs(p1, slots.update(k, pool[0]), k + 1, j, total);
    }
}

proof fn lemma_fill_assigned_own_refs(
    pool: Seq<Option<VcpuRef>>,
    d: Seq<Seq<Option<VcpuRef>>>,
    ids: Seq<Option<u32>>,
    a: int,
    j: int,
    total: int,
)
    requires
        own_refs(pool, j, total),
    ensures
        fill_assigned(pool, d, ids, a) matches Some((p2, d2)) ==> own_refs(p2, j, total),
    decreases ids.len() - a,
{
    if 0 <= a < ids.len() {
        match ids[a] {
            None => lemma_fill_assigned_own_refs(pool, d, ids, a + 1, j, total),
            Some(h) => {
                lemma_fill_outcome_own_refs(pool, d[h as int], 0, j, total);
                match fill_outcome(pool, d[h as int], 0) {
                    None => {},
                    Some((p2, s2)) => lemma_fill_assigned_own_refs(p2, d.update(h as int, s2), ids, a + 1, j, total),
                }
            },
        }
    }
}

/// The pools that filling the dedicated slots leaves hold only each guest's
/// own vCPUs below its capacities.
proof fn lemma_fill_guests_own_refs(
    pools: Seq<Seq<Option<VcpuRef>>>,
    d: Seq<Seq<Option<VcpuRef>>>,
    gs: Seq<Guest>,
    j: int,
)
    requires
        0 <= j,
        pools.len() == gs.len(),
        forall|i: int| 0 <= i < gs.len() ==> #[trigger] own_refs(pools[i], i, gs[i].hart_capacity + gs[i].assigned_hart_capacity),
    ensures
        fill_guests(pools, d, gs, j) matches Some((p2, d2)) ==> p2.len() == gs.len() && forall|i: int|
            0 <= i < gs.len() ==> #[trigger] own_refs(p2[i], i, gs[i].hart_capacity + gs[i].assigned_hart_capacity),
    decreases gs.len() - j,
{
    if j < gs.len() {
        let total = gs[j].hart_capacity + gs[j].assigned_hart_capacity;
        lemma_fill_assigned_own_refs(pools[j], d, gs[j].assigned_harts@, 0, j, total);
        match fill_assigned(pools[j], d, gs[j].assigned_harts@, 0) {
            None => {},
            Some((p, d1)) => {
                let pools1 = pools.update(j, p);
                assert forall|i: int| 0 <= i < gs.len() implies #[trigger] own_refs(pools1[i], i, gs[i].hart_capacity + gs[i].assigned_hart_capacity) by {
                    if i != j {
                        assert(pools1[i] == pools[i]);
                    }
                }
                lemma_fill_guests_own_refs(pools1, d1, gs, j + 1);
            },
        }
    }
}

/// Once the first guests up to `m` have a fault, it stays the first fault.
proof fn lemma_first_fault_sticks(gs: Seq<Guest>, hc: int, m: int, n: int)
    requires
        0 <= m <= n,
        first_fault(gs, hc, m) is Some,
    ensures
        first_fault(gs, hc, n) == first_fault(gs, hc, m),
    decreases n - m,
{
    if n > m {
        lemma_first_fault_sticks(gs, hc, m, n - 1);
    }
}

/// Without a first fault, no guest has one.
proof fn lemma_no_first_fault(gs: Seq<Guest>, hc: int, n: int)
    requires
        first_fault(gs, hc, n) is None,
    ensures
        forall|j: int| 0 <= j < n ==> #[trigger] guest_fault(gs[j], hc) is None,
    decreases n,
{
    if n > 0 {
        lemma_no_first_fault(gs, hc, n - 1);
    }
}

/// The fault of guest `g` among `hart_count` harts, as [`guest_fault`] says.
fn check_guest(g: &Guest, hart_count: usize) -> (r: Option<InitError>)
    ensures
        r == guest_fault(*g, hart_count as int),
{
    let total = match g.hart_capacity.checked_add(g.assigned_hart_capacity) {
        None => {
            return Some(InitError::CapacityOverflow);
        },
        Some(t) => t,
    };
    let mut i: usize = 0;
    while i < total
        invariant
            total == g.hart_capacity + g.assigned_hart_capacity,
            i <= total,
            forall|k: int| 0 <= k < i ==> !#[trigger] slot_fault(*g, k),
        decreases total - i,
    {
        if i >= g.vcpus.len() || i >= g.vcpu_ptrs.len() || g.vcpus[i].is_none() {
            proof {
                assert(slot_fault(*g, i as int));
            }
            return Some(InitError::VcpuSlotMissing);
        }
        i = i + 1;
    }
    if total > 0 {
        let n = g.data.len();
        if n > usize::MAX - 4095 || (n + 4095) / 4096 * 4096 > (isize::MAX as usize) - 4095 {
            return Some(InitError::ImageTooLarge);
        }
    }
    let mut a: usize = 0;
    while a < g.assigned_harts.len()
        invariant
            a <= g.assigned_harts@.len(),
            total == g.hart_capacity + g.assigned_hart_capacity,
            forall|k: int| 0 <= k < total ==> !#[trigger] slot_fault(*g, k),
            !(total > 0 && image_too_large(g.data@.len() as int)),
            forall|b: int| 0 <= b < a ==> !#[trigger] assigned_hart_missing(*g, b, hart_count as int),
        decreases g.assigned_harts@.len() - a,
    {
        match g.assigned_harts[a] {
            Some(h) => {
                if h as usize >= hart_count {
                    proof {
                        assert(assigned_hart_missing(*g, a as int, hart_count as int));
                    }
                    return Some(InitError::AssignedHartOutOfRange);
                }
            },
            None => {},
        }
        a = a + 1;
    }
    proof {
        assert(!exists|b: int| #[trigger] assigned_hart_missing(*g, b, hart_count as int));
    }
    None
}

/// Sets the guests up.  First every guest is checked ([`guest_fault`]); the
/// first fault is the error and nothing changes.  Then each guest's vCPUs are
/// loaded (see [`allocate_guest_memory`]), each put in the guest's pool at
/// its own slot; `OutOfMemory` when the heap runs short.  Last, each guest
/// hands vCPUs of its pool to the empty dedicated slots of each of its
/// assigned harts, in order ([`fill_guests`]); `NoVcpuLeft` when a pool runs
/// out.
pub fn initialize_guests(
    guests: &mut Vec<Guest>,
    harts: &mut Vec<Hart>,
    heap: &mut Heap,
    mem: &mut Memory,
    vlen: usize,
) -> (r: Result<(), InitError>)
    requires
        old(heap).wf(),
        old(heap).memory_clean(old(mem)@),
        old(heap).base_addr % 4096 == 0,
        old(heap).limit@ <= 0x0100_0000_0000_0000,
    ensures
        final(heap).wf(),
        final(heap).memory_clean(final(mem)@),
        final(heap).base_addr == old(heap).base_addr,
        final(heap).limit@ == old(heap).limit@,
        old(heap).handed_out@.subset_of(final(heap).handed_out@),
        forall|x: int| #[trigger]
            old(heap).handed_out@.contains(x) ==> byte_of(final(mem)@, x) == byte_of(old(mem)@, x),
        final(guests)@.len() == old(guests)@.len(),
        final(harts)@.len() == old(harts)@.len(),
        forall|j: int| 0 <= j < old(guests)@.len() ==> #[trigger] same_guest_setup(old(guests)@[j], final(guests)@[j]),
        forall|h: int| 0 <= h < old(harts)@.len() ==> #[trigger] final(harts)@[h].guests@ == old(harts)@[h].guests@,
        r is Ok ==> forall|j: int| 0 <= j < old(guests)@.len() ==> #[trigger] guest_loaded(final(guests)@[j], final(mem)@, final(heap).handed_out@),
        ({
            let gs = old(guests)@;
            let fault = first_fault(gs, old(harts)@.len() as int, gs.len() as int);
            let filled = fill_guests(loaded_pools(gs), dedicated_of(old(harts)@), gs, 0);
            &&& fault is Some ==> r == Err::<(), InitError>(fault->0) && final(guests)@ == gs
                && final(harts)@ == old(harts)@ && final(mem)@ == old(mem)@
                && final(heap).free_list@ == old(heap).free_list@
            &&& fault is None ==> r is Ok || r == Err::<(), InitError>(InitError::OutOfMemory) || r
                == Err::<(), InitError>(InitError::NoVcpuLeft)
            &&& r == Err::<(), InitError>(InitError::OutOfMemory) ==> exists|j: int|
                0 <= j < gs.len() && #[trigger] heap_short(final(heap).free_list@, gs[j].data@.len() as int)
            &&& fault is None ==> (r == Err::<(), InitError>(InitError::OutOfMemory) <==> after_guest_loads(
                old(heap).free_list@,
                gs,
                0,
            ) is None)
            &&& fault is None && r != Err::<(), InitError>(InitError::OutOfMemory) ==> (r == Err::<
                (),
                InitError,
            >(InitError::NoVcpuLeft) <==> filled is None)
            &&& r is Ok ==> filled == Some((pools_of(final(guests)@), dedicated_of(final(harts)@)))
        }),
        r is Ok && (forall|j: int, k: int|
            0 <= j < old(guests)@.len() && 0 <= k < old(guests)@[j].vcpu_ptrs@.len()
                ==> #[trigger] old(guests)@[j].vcpu_ptrs@[k] is None) ==> pools_name_vcpus(final(guests)@),
{
    let n = guests.len();
    let ghost gs = guests@;
    let ghost hs = harts@;
    let hart_count = harts.len();
    // Check every guest first.
    let mut gi: usize = 0;
    while gi < n
        invariant
            n == guests@.len(),
            guests@ == gs,
            gs == old(guests)@,
            gs.len() == n,
            hart_count == old(harts)@.len(),
            gi <= n,
            first_fault(gs, hart_count as int, gi as int) is None,
            *heap == *old(heap),
            mem@ == old(mem)@,
            harts@ == old(harts)@,
            old(heap).wf(),
            old(heap).memory_clean(old(mem)@),
        decreases n - gi,
    {
        match check_guest(&guests[gi], hart_count) {
            Some(e) => {
                proof {
                    assert(first_fault(gs, hart_count as int, gi + 1) == Some(e));
                    lemma_first_fault_sticks(gs, hart_count as int, gi + 1, n as int);
                }
                return Err(e);
            },
            None => {},
        }
        gi = gi + 1;
    }
    proof {
        lemma_no_first_fault(gs, hart_count as int, n as int);
    }
    // Load the vCPUs of every guest.
    gi = 0;
    while gi < n
        invariant
            n == guests@.len(),
            gs == old(guests)@,
            gs.len() == n,
            hs == old(harts)@,
            harts@ == hs,
            hart_count == hs.len(),
            gi <= n,
            first_fault(gs, hart_count as int, n as int) is None,
            forall|j: int| 0 <= j < n ==> #[trigger] guest_fault(gs[j], hart_count as int) is None,
            heap.wf(),
            heap.memory_clean(mem@),
            heap.base_addr == old(heap).base_addr,
            heap.limit@ == old(heap).limit@,
            heap.base_addr % 4096 == 0,
            heap.limit@ <= 0x0100_0000_0000_0000,
            old(heap).handed_out@.subset_of(heap.handed_out@),
            forall|x: int| #[trigger] old(heap).handed_out@.contains(x) ==> byte_of(mem@, x) == byte_of(old(mem)@, x),
            forall|j: int| 0 <= j < n ==> #[trigger] same_guest_setup(gs[j], guests@[j]),
            forall|j: int| 0 <= j < gi ==> #[trigger] guest_loaded(guests@[j], mem@, heap.handed_out@),
            forall|j: int| 0 <= j < gi ==> #[trigger] guests@[j].vcpu_ptrs@ == loaded_pool(gs[j], j),
            forall|j: int| gi <= j < n ==> #[trigger] guests@[j] == gs[j],
            after_guest_loads(old(heap).free_list@, gs, 0) == after_guest_loads(heap.free_list@, gs, gi as int),
        decreases n - gi,
    {
        let ghost gs0 = guests@;
        let ghost m0 = mem@;
        let ghost h0 = heap.handed_out@;
        let loaded = load_guest_vcpus(guests, gi, heap, mem, vlen);
        proof {
            assert(gs0[gi as int] == gs[gi as int]);
            assert(guest_fault(gs[gi as int], hart_count as int) is None);
            if loaded == Err::<(), InitError>(InitError::VcpuSlotMissing) {
                let g = gs[gi as int];
                let i = choose|i: int| 0 <= i < g.hart_capacity + g.assigned_hart_capacity && #[trigger] slot_fault(g, i);
                assert(false);
            }
            if loaded == Err::<(), InitError>(InitError::OutOfMemory) {
                assert(heap_short(heap.free_list@, gs[gi as int].data@.len() as int));
            }
            assert(loaded != Err::<(), InitError>(InitError::ImageTooLarge));
            assert(loaded != Err::<(), InitError>(InitError::CapacityOverflow));
            assert forall|j: int| 0 <= j < gi implies #[trigger] guest_loaded(guests@[j], mem@, heap.handed_out@) by {
                assert(guest_loaded(gs0[j], m0, h0));
                lemma_guest_loaded_kept(gs0[j], m0, h0, mem@, heap.handed_out@);
                assert(guests@[j] == gs0[j]);
            }
            assert forall|x: int| #[trigger] old(heap).handed_out@.contains(x) implies byte_of(mem@, x) == byte_of(old(mem)@, x) by {
                assert(h0.contains(x));
            }
            assert forall|j: int| 0 <= j < n implies #[trigger] same_guest_setup(gs[j], guests@[j]) by {
                assert(same_guest_setup(gs[j], gs0[j]));
                if j != gi {
                    assert(guests@[j] == gs0[j]);
                }
            }
            assert forall|j: int| 0 <= j < gi implies #[trigger] guests@[j].vcpu_ptrs@ == loaded_pool(gs[j], j) by {
                assert(guests@[j] == gs0[j]);
            }
            assert forall|j: int| gi < j < n implies #[trigger] guests@[j] == gs[j] by {
                assert(guests@[j] == gs0[j]);
            }
        }
        if loaded.is_err() {
            return loaded;
        }
        gi = gi + 1;
    }
    // Hand vCPUs to the dedicated slots of the assigned harts.
    let ghost gl = guests@;
    let ghost m_loaded = mem@;
    let ghost h_loaded = heap.handed_out@;
    let ghost target = fill_guests(loaded_pools(gs), dedicated_of(hs), gs, 0);
    proof {
        assert(pools_of(guests@) =~= loaded_pools(gs));
        assert(after_guest_loads(heap.free_list@, gs, n as int) == Some(heap.free_list@));
    }
    gi = 0;
    while gi < n
        invariant
            n == guests@.len(),
            gs == old(guests)@,
            gs.len() == n,
            hs == old(harts)@,
            first_fault(gs, hart_count as int, n as int) is None,
            gl.len() == n,
            harts@.len() == hs.len(),
            mem@ == m_loaded,
            heap.handed_out@ == h_loaded,
            heap.wf(),
            heap.memory_clean(mem@),
            heap.base_addr == old(heap).base_addr,
            heap.limit@ == old(heap).limit@,
            old(heap).handed_out@.subset_of(heap.handed_out@),
            forall|x: int| #[trigger] old(heap).handed_out@.contains(x) ==> byte_of(mem@, x) == byte_of(old(mem)@, x),
            hart_count == hs.len(),
            gi <= n,
            forall|j: int| 0 <= j < n ==> #[trigger] guest_fault(gs[j], hart_count as int) is None,
            forall|j: int| 0 <= j < n ==> #[trigger] same_guest_setup(gs[j], guests@[j]),
            forall|j: int| 0 <= j < n ==> #[trigger] guests@[j].vcpus@ == gl[j].vcpus@,
            forall|j: int| 0 <= j < n ==> #[trigger] same_guest_setup(gl[j], guests@[j]),
            forall|j: int| 0 <= j < n ==> #[trigger] guest_loaded(gl[j], m_loaded, h_loaded),
            forall|h: int| 0 <= h < harts@.len() ==> #[trigger] harts@[h].guests@ == hs[h].guests@,
            fill_guests(pools_of(guests@), dedicated_of(harts@), gs, gi as int) == target,
            after_guest_loads(old(heap).free_list@, gs, 0) is Some,
            target == fill_guests(loaded_pools(gs), dedicated_of(hs), gs, 0),
        decreases n - gi,
    {
        let count = guests[gi].assigned_harts.len();
        let mut a: usize = 0;
        proof {
            assert(same_guest_setup(gs[gi as int], guests@[gi as int]));
            assert(fill_from(pools_of(guests@), dedicated_of(harts@), gs, gi as int, 0)
                == fill_guests(pools_of(guests@), dedicated_of(harts@), gs, gi as int));
        }
        while a < count
            invariant
                n == guests@.len(),
                gi < n,
                gs.len() == n,
                gs == old(guests)@,
                hs == old(harts)@,
                first_fault(gs, hart_count as int, n as int) is None,
                gl.len() == n,
                mem@ == m_loaded,
                heap.handed_out@ == h_loaded,
                heap.wf(),
                heap.memory_clean(mem@),
                heap.base_addr == old(heap).base_addr,
                heap.limit@ == old(heap).limit@,
                old(heap).handed_out@.subset_of(heap.handed_out@),
                forall|x: int| #[trigger] old(heap).handed_out@.contains(x) ==> byte_of(mem@, x) == byte_of(old(mem)@, x),
                count == gs[gi as int].assigned_harts@.len(),
                a <= count,
                harts@.len() == hs.len(),
                hart_count == hs.len(),
                guest_fault(gs[gi as int], hart_count as int) is None,
                forall|j: int| 0 <= j < n ==> #[trigger] same_guest_setup(gs[j], guests@[j]),
                forall|j: int| 0 <= j < n ==> #[trigger] guests@[j].vcpus@ == gl[j].vcpus@,
                forall|j: int| 0 <= j < n ==> #[trigger] same_guest_setup(gl[j], guests@[j]),
                forall|h: int| 0 <= h < harts@.len() ==> #[trigger] harts@[h].guests@ == hs[h].guests@,
                fill_from(pools_of(guests@), dedicated_of(harts@), gs, gi as int, a as int) == target,
                after_guest_loads(old(heap).free_list@, gs, 0) is Some,
                target == fill_guests(loaded_pools(gs), dedicated_of(hs), gs, 0),
            decreases count - a,
        {
            proof {
                assert(same_guest_setup(gs[gi as int], guests@[gi as int]));
            }
            match guests[gi].assigned_harts[a] {
                Some(assigned_hart_id) => {
                    let h = assigned_hart_id as usize;
                    proof {
                        if h >= hart_count {
                            assert(assigned_hart_missing(gs[gi as int], a as int, hart_count as int));
                        }
                    }
                    let ghost pools0 = pools_of(guests@);
                    let ghost ded0 = dedicated_of(harts@);
                    let ghost gs1 = guests@;
                    let ghost hs1 = harts@;
                    let filled = fill_dedicated_slots(&mut guests[gi].vcpu_ptrs, &mut harts[h].dedicated_to);
                    proof {
                        assert(ded0[h as int] == hs1[h as int].dedicated_to@);
                        assert(pools0[gi as int] == gs1[gi as int].vcpu_ptrs@);
                        if filled.is_ok() {
                            let (p2, s2) = fill_outcome(pools0[gi as int], ded0[h as int], 0)->0;
                            assert(pools_of(guests@) =~= pools0.update(gi as int, p2));
                            assert(dedicated_of(harts@) =~= ded0.update(h as int, s2));
                            match fill_assigned(p2, ded0.update(h as int, s2), gs[gi as int].assigned_harts@, a + 1) {
                                Some((p, d)) => {
                                    assert(pools0.update(gi as int, p2).update(gi as int, p) =~= pools0.update(gi as int, p));
                                },
                                None => {},
                            }
                        } else {
                            assert(fill_assigned(pools0[gi as int], ded0, gs[gi as int].assigned_harts@, a as int) is None);
                            assert(target is None);
                        }
                        assert forall|j: int| 0 <= j < n implies #[trigger] same_guest_setup(gs[j], guests@[j]) by {
                            assert(same_guest_setup(gs[j], gs1[j]));
                            if j != gi {
                                assert(guests@[j] == gs1[j]);
                            }
                        }
                        assert forall|j: int| 0 <= j < n implies #[trigger] same_guest_setup(gl[j], guests@[j]) by {
                            assert(same_guest_setup(gl[j], gs1[j]));
                            if j != gi {
                                assert(guests@[j] == gs1[j]);
                            }
                        }
                        assert forall|j: int| 0 <= j < n implies #[trigger] guests@[j].vcpus@ == gl[j].vcpus@ by {
                            assert(gs1[j].vcpus@ == gl[j].vcpus@);
                            if j != gi {
                                assert(guests@[j] == gs1[j]);
                            }
                        }
                        assert forall|k: int| 0 <= k < harts@.len() implies #[trigger] harts@[k].guests@ == hs[k].guests@ by {
                            assert(hs1[k].guests@ == hs[k].guests@);
                            if k != h {
                                assert(harts@[k] == hs1[k]);
                            }
                        }
                    }
                    if filled.is_err() {
                        return Err(InitError::NoVcpuLeft);
                    }
                },
                None => {},
            }
            a = a + 1;
        }
        proof {
            let pools = pools_of(guests@);
            assert(pools.update(gi as int, pools[gi as int]) =~= pools);
        }
        gi = gi + 1;
    }
    proof {
        assert forall|j: int| 0 <= j < n implies #[trigger] guest_loaded(guests@[j], mem@, heap.handed_out@) by {
            assert(guest_loaded(gl[j], m_loaded, h_loaded));
            let g1 = gl[j];
            let g2 = guests@[j];
            assert(same_guest_setup(gl[j], guests@[j]));
            assert(guests@[j].vcpus@ == gl[j].vcpus@);
            assert forall|i: int| 0 <= i < g2.hart_capacity + g2.assigned_hart_capacity implies #[trigger] vcpu_loaded(g2, i, mem@, heap.handed_out@) by {
                assert(vcpu_loaded(g1, i, m_loaded, h_loaded));
                let (root, kernel) = choose|root: u64, kernel: int| #[trigger] stably_loaded(m_loaded, h_loaded, root, g1.entry_gpa as u64, kernel, g1.data@)
                    && g1.vcpus@[i]->0.hgatp == hgatp_value(root);
                assert(stably_loaded(mem@, heap.handed_out@, root, g2.entry_gpa as u64, kernel, g2.data@));
            }
        }
        if forall|j: int, k: int|
            0 <= j < gs.len() && 0 <= k < gs[j].vcpu_ptrs@.len() ==> #[trigger] gs[j].vcpu_ptrs@[k] is None {
            lemma_setup_pools_name_vcpus(gs, hs, guests@, mem@, heap.handed_out@);
        }
    }
    Ok(())
}

/// The pools that the set-up leaves name only vCPUs that exist, when they
/// started empty.
proof fn lemma_setup_pools_name_vcpus(
    gs: Seq<Guest>,
    hs: Seq<Hart>,
    final_gs: Seq<Guest>,
    m: Map<u64, u8>,
    handed: Set<int>,
)
    requires
        gs.len() <= usize::MAX,
        final_gs.len() == gs.len(),
        forall|j: int, k: int|
            0 <= j < gs.len() && 0 <= k < gs[j].vcpu_ptrs@.len() ==> #[trigger] gs[j].vcpu_ptrs@[k] is None,
        forall|j: int| 0 <= j < gs.len() ==> #[trigger] guest_fault(gs[j], hs.len() as int) is None,
        forall|j: int| 0 <= j < gs.len() ==> #[trigger] same_guest_setup(gs[j], final_gs[j]),
        forall|j: int| 0 <= j < gs.len() ==> #[trigger] guest_loaded(final_gs[j], m, handed),
        fill_guests(loaded_pools(gs), dedicated_of(hs), gs, 0) matches Some((p, d)) && p == pools_of(final_gs),
    ensures
        pools_name_vcpus(final_gs),
{
    let lp = loaded_pools(gs);
    assert forall|i: int| 0 <= i < gs.len() implies #[trigger] own_refs(lp[i], i, gs[i].hart_capacity + gs[i].assigned_hart_capacity) by {
        let total = gs[i].hart_capacity + gs[i].assigned_hart_capacity;
        assert(guest_fault(gs[i], hs.len() as int) is None);
        assert(total <= usize::MAX);
        assert forall|k: int| 0 <= k < lp[i].len() && #[trigger] lp[i][k] is Some implies lp[i][k]->0.guest == i
            && lp[i][k]->0.slot < total by {
            if k >= total {
                assert(gs[i].vcpu_ptrs@[k] is None);
            }
        }
    }
    lemma_fill_guests_own_refs(lp, dedicated_of(hs), gs, 0);
    let p = pools_of(final_gs);
    assert forall|i: int, k: int|
        0 <= i < final_gs.len() && 0 <= k < final_gs[i].vcpu_ptrs@.len() && #[trigger] final_gs[i].vcpu_ptrs@[k] is Some
            implies vcpu_exists(final_gs, final_gs[i].vcpu_ptrs@[k]->0) by {
        assert(p[i] == final_gs[i].vcpu_ptrs@);
        assert(own_refs(p[i], i, gs[i].hart_capacity + gs[i].assigned_hart_capacity));
        let v = final_gs[i].vcpu_ptrs@[k]->0;
        assert(p[i][k] is Some);
        assert(v.guest == i);
        assert(same_guest_setup(gs[i], final_gs[i]));
        assert(guest_loaded(final_gs[i], m, handed));
        assert(vcpu_loaded(final_gs[i], v.slot as int, m, handed));
    }
}

/// Why no guest could be found for a hart.
#[derive(Debug, Clone, Copy, PartialEq, Eq)]
pub enum SchedulingError {
    /// The hart's list of dedicated guests has an empty slot where a guest
    /// was looked for.
    EmptyAssignmentSlot,
    /// The vCPU pointer of the chosen dedicated guest is null.
    NullVcpu,
    /// The chosen vCPU slot holds no vCPU.
    MissingVcpu,
    /// No guest had room for the hart in a whole round over the guests: the
    /// hart would wait forever.
    NoGuestReady,
    /// No guest had room for a hart that looked for its first guest.
    NoJob,
}

/// Guest `g` has room for one more hart without an assignment.
pub open spec fn room_for_hart(g: Guest) -> bool {
    g.active_hart_count < g.hart_capacity
}

/// Guest `g` has room for one more assigned hart.
pub open spec fn room_for_assigned_hart(g: Guest) -> bool {
    g.active_assigned_hart_count < g.assigned_hart_capacity
}

/// Where a round of `n` attempts that was to start at `next` starts: back at
/// 0 once `next` is past the end.
pub open spec fn round_start(next: int, n: int) -> int {
    if next >= n { 0 } else { next }
}

/// The index tried at the `k`-th attempt of a round of `n` that starts at `s`.
pub open spec fn attempt_index(s: int, k: int, n: int) -> int {
    (s + k) % n
}

/// The first attempt, from the `k`-th on, of a round of `n` over the guests
/// that finds room for a hart.
pub open spec fn first_room(guests: Seq<Guest>, s: int, n: int, k: int) -> Option<int>
    decreases n - k,
{
    if k >= n {
        None
    } else if room_for_hart(guests[attempt_index(s, k, n)]) {
        Some(k)
    } else {
        first_room(guests, s, n, k + 1)
    }
}

/// The first attempt, from the `k`-th on, of a round of `n` over the guests
/// of a hart (`slots`) that finds room for that assigned hart;
/// `Err` when the round meets an empty slot first.
pub open spec fn first_assigned_room(
    guests: Seq<Guest>,
    slots: Seq<Option<usize>>,
    s: int,
    n: int,
    k: int,
) -> Result<Option<int>, ()>
    decreases n - k,
{
    if k >= n {
        Ok(None)
    } else {
        match slots[attempt_index(s, k, n)] {
            None => Err(()),
            Some(g) => if room_for_assigned_hart(guests[g as int]) {
                Ok(Some(k))
            } else {
                first_assigned_room(guests, slots, s, n, k + 1)
            },
        }
    }
}

/// `g2` is `g` after a hart without an assignment took its first pooled vCPU.
pub open spec fn took_vcpu(g: Guest, g2: Guest) -> bool {
    &&& same_guest_but_claims(g, g2)
    &&& g2.active_hart_count == g.active_hart_count + 1
    &&& g2.vcpu_ptrs@ == pool_after_take(g.vcpu_ptrs@)
    &&& g2.active_assigned_hart_count == g.active_assigned_hart_count
}

/// `g2` is `g` after an assigned hart took a place in it.
pub open spec fn took_assigned_place(g: Guest, g2: Guest) -> bool {
    &&& same_guest_but_claims(g, g2)
    &&& g2.active_hart_count == g.active_hart_count
    &&& g2.vcpu_ptrs@ == g.vcpu_ptrs@
    &&& g2.active_assigned_hart_count == g.active_assigned_hart_count + 1
}

/// Every guest with room for a hart has a vCPU at the front of its pool.
pub open spec fn pools_ready(guests: Seq<Guest>) -> bool {
    forall|i: int|
        0 <= i < guests.len() && #[trigger] room_for_hart(guests[i]) ==> guests[i].vcpu_ptrs@.len() > 0
            && guests[i].vcpu_ptrs@[0] is Some
}

/// The guests of every hart are in the guest list, and each hart has a vCPU
/// pointer slot for each of its guest slots.
pub open spec fn harts_consistent(guests: Seq<Guest>, harts: Seq<Hart>) -> bool {
    forall|h: int|
        0 <= h < harts.len() ==> {
            &&& #[trigger] harts[h].dedicated_to@.len() == harts[h].guests@.len()
            &&& forall|j: int|
                0 <= j < harts[h].guests@.len() && #[trigger] harts[h].guests@[j] is Some
                    ==> harts[h].guests@[j]->0 < guests.len()
        }
}

/// Whether the guests of every hart are in the guest list and each hart has
/// a dedicated slot for each of its guest slots ([`harts_consistent`]).
pub fn harts_are_consistent(guests: &Vec<Guest>, harts: &Vec<Hart>) -> (r: bool)
    ensures
        r == harts_consistent(guests@, harts@),
{
    let mut h: usize = 0;
    while h < harts.len()
        invariant
            h <= harts@.len(),
            forall|k: int|
                0 <= k < h ==> {
                    &&& #[trigger] harts@[k].dedicated_to@.len() == harts@[k].guests@.len()
                    &&& forall|j: int|
                        0 <= j < harts@[k].guests@.len() && #[trigger] harts@[k].guests@[j] is Some
                            ==> harts@[k].guests@[j]->0 < guests@.len()
                },
        decreases harts@.len() - h,
    {
        let hart = &harts[h];
        if hart.dedicated_to.len() != hart.guests.len() {
            proof {
                if harts_consistent(guests@, harts@) {
                    assert(harts@[h as int].dedicated_to@.len() == harts@[h as int].guests@.len());
                }
            }
            return false;
        }
        let mut j: usize = 0;
        while j < hart.guests.len()
            invariant
                h < harts@.len(),
                *hart == harts@[h as int],
                hart.dedicated_to@.len() == hart.guests@.len(),
                j <= hart.guests@.len(),
                forall|i: int| 0 <= i < j && #[trigger] hart.guests@[i] is Some ==> hart.guests@[i]->0 < guests@.len(),
            decreases hart.guests@.len() - j,
        {
            match hart.guests[j] {
                Some(g) => {
                    if g >= guests.len() {
                        proof {
                            if harts_consistent(guests@, harts@) {
                                assert(harts@[h as int].dedicated_to@.len() == harts@[h as int].guests@.len());
                                assert(harts@[h as int].guests@[j as int] is Some);
                            }
                        }
                        return false;
                    }
                },
                None => {},
            }
            j = j + 1;
        }
        proof {
            assert(harts@[h as int].dedicated_to@.len() == harts@[h as int].guests@.len());
            assert forall|i: int|
                0 <= i < harts@[h as int].guests@.len() && #[trigger] harts@[h as int].guests@[i] is Some
                    implies harts@[h as int].guests@[i]->0 < guests@.len() by {
                assert(hart.guests@[i] is Some);
            }
        }
        h = h + 1;
    }
    true
}

/// Whether every guest with room for a hart has a vCPU at the front of its
/// pool ([`pools_ready`]).
pub fn pools_are_ready(guests: &Vec<Guest>) -> (r: bool)
    ensures
        r == pools_ready(guests@),
{
    let mut i: usize = 0;
    while i < guests.len()
        invariant
            i <= guests@.len(),
            forall|k: int|
                0 <= k < i && #[trigger] room_for_hart(guests@[k]) ==> guests@[k].vcpu_ptrs@.len() > 0
                    && guests@[k].vcpu_ptrs@[0] is Some,
        decreases guests@.len() - i,
    {
        let g = &guests[i];
        if g.active_hart_count < g.hart_capacity && (g.vcpu_ptrs.len() == 0 || g.vcpu_ptrs[0].is_none()) {
            proof {
                assert(room_for_hart(guests@[i as int]));
            }
            return false;
        }
        i = i + 1;
    }
    true
}

/// The outcome of a round over the guests for a hart without an assignment
/// that was to start at `next`: `before` and `after` are the guests before and
/// after it, `r` its result.
pub open spec fn vcpu_round_outcome(
    before: Seq<Guest>,
    after: Seq<Guest>,
    next: int,
    r: Option<(VcpuRef, usize)>,
) -> bool {
    let n = before.len() as int;
    let s = round_start(next, n);
    &&& after.len() == before.len()
    &&& match first_room(before, s, n, 0) {
        None => r is None && after == before,
        Some(k) => {
            let gi = attempt_index(s, k, n);
            &&& r == Some((before[gi].vcpu_ptrs@[0]->0, gi as usize))
            &&& took_vcpu(before[gi], after[gi])
            &&& forall|i: int| 0 <= i < n && i != gi ==> #[trigger] after[i] == before[i]
        },
    }
}

/// The outcome of a round over the guests of an assigned hart (`hart`) that
/// was to start at slot `next`.
pub open spec fn assigned_round_outcome(
    before: Seq<Guest>,
    after: Seq<Guest>,
    hart: Hart,
    next: int,
    r: Result<Option<(Option<VcpuRef>, usize)>, ()>,
) -> bool {
    let n = hart.guests@.len() as int;
    let s = round_start(next, n);
    &&& after.len() == before.len()
    &&& match first_assigned_room(before, hart.guests@, s, n, 0) {
        Err(()) => r is Err && after == before,
        Ok(None) => r == Ok::<Option<(Option<VcpuRef>, usize)>, ()>(None) && after == before,
        Ok(Some(k)) => {
            let a = attempt_index(s, k, n);
            let gi = hart.guests@[a]->0 as int;
            &&& r == Ok::<Option<(Option<VcpuRef>, usize)>, ()>(Some((hart.dedicated_to@[a], a as usize)))
            &&& took_assigned_place(before[gi], after[gi])
            &&& forall|i: int| 0 <= i < before.len() && i != gi ==> #[trigger] after[i] == before[i]
        },
    }
}

/// `after` is `before` once hart without an assignment gave `v` back to
/// guest `gi`: `v` goes to the first empty slot of the guest's pool, and the
/// guest's count of such harts goes down by one (wrapping around at zero).
pub open spec fn released_vcpu(before: Seq<Guest>, after: Seq<Guest>, gi: int, v: VcpuRef) -> bool {
    &&& after.len() == before.len()
    &&& same_guest_but_claims(before[gi], after[gi])
    &&& after[gi].vcpu_ptrs@ == pool_after_release(before[gi].vcpu_ptrs@, v)
    &&& after[gi].active_hart_count == (if before[gi].active_hart_count == 0 {
        usize::MAX as int
    } else {
        before[gi].active_hart_count - 1
    })
    &&& after[gi].active_assigned_hart_count == before[gi].active_assigned_hart_count
    &&& forall|i: int| 0 <= i < before.len() && i != gi ==> #[trigger] after[i] == before[i]
}

/// `after` is `before` once an assigned hart left guest `gi`: the guest's
/// count of assigned harts goes down by one (wrapping around at zero).
pub open spec fn released_assigned_place(before: Seq<Guest>, after: Seq<Guest>, gi: int) -> bool {
    &&& after.len() == before.len()
    &&& same_guest_but_claims(before[gi], after[gi])
    &&& after[gi].vcpu_ptrs@ == before[gi].vcpu_ptrs@
    &&& after[gi].active_hart_count == before[gi].active_hart_count
    &&& after[gi].active_assigned_hart_count == (if before[gi].active_assigned_hart_count == 0 {
        usize::MAX as int
    } else {
        before[gi].active_assigned_hart_count - 1
    })
    &&& forall|i: int| 0 <= i < before.len() && i != gi ==> #[trigger] after[i] == before[i]
}

/// Gives vCPU `v` back to guest `guest_id`'s pool, into its first empty slot,
/// and counts one hart without an assignment less on the guest.
pub fn release_vcpu(guests: &mut Vec<Guest>, guest_id: usize, v: VcpuRef)
    requires
        guest_id < old(guests)@.len(),
    ensures
        released_vcpu(old(guests)@, final(guests)@, guest_id as int, v),
        pool_ok(old(guests)@[guest_id as int]) && old(guests)@[guest_id as int].active_hart_count > 0
            ==> pool_ok(final(guests)@[guest_id as int]),
{
    let ghost pool = guests@[guest_id as int].vcpu_ptrs@;
    let len = guests[guest_id].vcpu_ptrs.len();
    let mut i: usize = 0;
    let mut placed = false;
    while i < len && !placed
        invariant
            len == pool.len(),
            guest_id < guests@.len(),
            guests@.len() == old(guests)@.len(),
            i <= len,
            pool == old(guests)@[guest_id as int].vcpu_ptrs@,
            forall|j: int| 0 <= j < old(guests)@.len() && j != guest_id ==> #[trigger] guests@[j] == old(guests)@[j],
            same_guest_but_claims(old(guests)@[guest_id as int], guests@[guest_id as int]),
            guests@[guest_id as int].active_hart_count == old(guests)@[guest_id as int].active_hart_count,
            guests@[guest_id as int].active_assigned_hart_count == old(guests)@[guest_id as int].active_assigned_hart_count,
            !placed ==> guests@[guest_id as int].vcpu_ptrs@ == pool,
            !placed ==> forall|j: int| 0 <= j < i ==> #[trigger] pool[j] is Some,
            placed ==> i >= 1 && pool[i - 1] is None && (forall|j: int| 0 <= j < i - 1 ==> #[trigger] pool[j] is Some)
                && guests@[guest_id as int].vcpu_ptrs@ == pool.update(i - 1, Some(v)),
        decreases len - i + (if placed { 0int } else { 1int }),
    {
        if guests[guest_id].vcpu_ptrs[i].is_none() {
            guests[guest_id].vcpu_ptrs.set(i, Some(v));
            placed = true;
        }
        i = i + 1;
    }
    // Update the global active hart counter.
    let count = guests[guest_id].active_hart_count;
    guests[guest_id].active_hart_count = count.wrapping_sub(1);
    proof {
        let after = guests@[guest_id as int].vcpu_ptrs@;
        if placed {
            let k = (i - 1) as int;
            assert(exists|x: int| 0 <= x < pool.len() && #[trigger] pool[x] is None);
            let f = first_free_slot(pool);
            assert(f == k) by {
                if f < k {
                    assert(pool[f] is Some);
                } else if f > k {
                    assert(pool[k] is Some);
                }
            }
            assert(after == pool_after_release(pool, v));
        } else {
            assert(!(exists|x: int| 0 <= x < pool.len() && #[trigger] pool[x] is None));
            assert(after == pool_after_release(pool, v));
        }
        let g = old(guests)@[guest_id as int];
        let g2 = guests@[guest_id as int];
        if pool_ok(g) && g.active_hart_count > 0 {
            lemma_pool_size_bound(pool);
            if placed {
                let k = (i - 1) as int;
                lemma_pool_size_update(pool, k, v);
                assert forall|a: int, b: int| 0 <= a < b < after.len() && #[trigger] after[b] is Some implies #[trigger] after[a] is Some by {
                    if a != k && b != k {
                        assert(pool[b] is Some);
                    } else if b == k {
                    } else {
                        assert(a == k);
                    }
                }
            } else {
                // the pool is full, which its bound rules out
                assert forall|x: int| 0 <= x < pool.len() implies #[trigger] pool[x] is Some by {
                    if pool[x] is None {
                        assert(exists|y: int| 0 <= y < pool.len() && #[trigger] pool[y] is None);
                    }
                }
                lemma_pool_size_full(pool);
            }
        }
    }
}

proof fn lemma_pool_size_full(s: Seq<Option<VcpuRef>>)
    requires
        forall|x: int| 0 <= x < s.len() ==> #[trigger] s[x] is Some,
    ensures
        pool_size(s) == s.len(),
    decreases s.len(),
{
    if s.len() > 0 {
        assert forall|x: int| 0 <= x < s.drop_first().len() implies #[trigger] s.drop_first()[x] is Some by {
            assert(s[x + 1] is Some);
        }
        lemma_pool_size_full(s.drop_first());
    }
}

proof fn lemma_pool_size_empty(s: Seq<Option<VcpuRef>>)
    requires
        forall|x: int| 0 <= x < s.len() ==> #[trigger] s[x] is None,
    ensures
        pool_size(s) == 0,
    decreases s.len(),
{
    if s.len() > 0 {
        assert forall|x: int| 0 <= x < s.drop_first().len() implies #[trigger] s.drop_first()[x] is None by {
            assert(s[x + 1] is None);
        }
        lemma_pool_size_empty(s.drop_first());
    }
}

/// Taking the first pooled vCPU of a guest with room keeps its pool well
/// formed.
pub proof fn lemma_take_keeps_pool_ok(g: Guest, g2: Guest)
    requires
        pool_ok(g),
        room_for_hart(g),
        took_vcpu(g, g2),
    ensures
        pool_ok(g2),
{
    let s = g.vcpu_ptrs@;
    if forall|x: int| 0 <= x < s.len() ==> #[trigger] s[x] is None {
        lemma_pool_size_empty(s);
    }
    let w = choose|x: int| 0 <= x < s.len() && !(#[trigger] s[x] is None);
    if w > 0 {
        assert(s[w] is Some);
    }
    assert(s[0] is Some);
    lemma_pool_size_push_none(s.drop_first());
    assert(pool_size(s) == 1 + pool_size(s.drop_first()));
    let s1 = pool_after_take(s);
    assert forall|i: int, j: int| 0 <= i < j < s1.len() && #[trigger] s1[j] is Some implies #[trigger] s1[i] is Some by {
        assert(s[j + 1] is Some);
    }
}

/// Giving a vCPU back to a guest that a hart without an assignment was
/// running keeps the guest's pool well formed.
pub proof fn lemma_release_keeps_pool_ok(g: Guest, g2: Guest, v: VcpuRef)
    requires
        pool_ok(g),
        g.active_hart_count > 0,
        same_guest_but_claims(g, g2),
        g2.vcpu_ptrs@ == pool_after_release(g.vcpu_ptrs@, v),
        g2.active_hart_count == g.active_hart_count - 1,
    ensures
        pool_ok(g2),
{
    let s = g.vcpu_ptrs@;
    lemma_pool_size_bound(s);
    if !(exists|x: int| 0 <= x < s.len() && #[trigger] s[x] is None) {
        assert forall|x: int| 0 <= x < s.len() implies #[trigger] s[x] is Some by {
            if s[x] is None {
                assert(exists|y: int| 0 <= y < s.len() && #[trigger] s[y] is None);
            }
        }
        lemma_pool_size_full(s);
    }
    lemma_first_free_slot(s);
    let f = first_free_slot(s);
    let s2 = s.update(f, Some(v));
    lemma_pool_size_update(s, f, v);
    assert forall|a: int, b: int| 0 <= a < b < s2.len() && #[trigger] s2[b] is Some implies #[trigger] s2[a] is Some by {
        if a != f && b != f {
            assert(s[b] is Some);
        }
    }
}

/// No vCPU is named twice in the pool `s`.
pub open spec fn pool_names_once(s: Seq<Option<VcpuRef>>) -> bool {
    forall|i: int, j: int| 0 <= i < s.len() && 0 <= j < s.len() && i != j && #[trigger] s[i] is Some ==> s[i] != #[trigger] s[j]
}

/// Two claims of a vCPU on one guest, one after the other, hand out two
/// different vCPUs when its pool is well formed and names no vCPU twice: the
/// first claim takes the pool's head, the second the vCPU that came next.
pub proof fn lemma_successive_claims_distinct(g0: Guest, g1: Guest, g2: Guest)
    requires
        pool_ok(g0),
        pool_names_once(g0.vcpu_ptrs@),
        room_for_hart(g0),
        took_vcpu(g0, g1),
        room_for_hart(g1),
        took_vcpu(g1, g2),
    ensures
        g0.vcpu_ptrs@.len() > 0 && g0.vcpu_ptrs@[0] is Some,
        g1.vcpu_ptrs@.len() > 0 && g1.vcpu_ptrs@[0] is Some,
        g0.vcpu_ptrs@[0] != g1.vcpu_ptrs@[0],
{
    lemma_take_keeps_pool_ok(g0, g1);
    lemma_pools_ok_are_ready(seq![g0, g1]);
    assert(room_for_hart(seq![g0, g1][0]));
    assert(room_for_hart(seq![g0, g1][1]));
    let p = g0.vcpu_ptrs@;
    assert(g1.vcpu_ptrs@ == pool_after_take(p));
    if p.len() == 1 {
        assert(pool_after_take(p)[0] == None::<VcpuRef>);
    }
    assert(p.len() >= 2);
    assert(g1.vcpu_ptrs@[0] == p[1]);
    assert(p[0] is Some);
    assert(p[0] != p[1]);
}

/// Guests whose pools are well formed are ready for a hart: each one with
/// room has a vCPU at the front of its pool.
pub proof fn lemma_pools_ok_are_ready(guests: Seq<Guest>)
    requires
        forall|i: int| 0 <= i < guests.len() ==> #[trigger] pool_ok(guests[i]),
    ensures
        pools_ready(guests),
{
    assert forall|i: int| 0 <= i < guests.len() && #[trigger] room_for_hart(guests[i]) implies guests[i].vcpu_ptrs@.len() > 0
        && guests[i].vcpu_ptrs@[0] is Some by {
        let s = guests[i].vcpu_ptrs@;
        assert(pool_ok(guests[i]));
        if forall|x: int| 0 <= x < s.len() ==> #[trigger] s[x] is None {
            lemma_pool_size_empty(s);
        }
        let w = choose|x: int| 0 <= x < s.len() && !(#[trigger] s[x] is None);
        if w > 0 {
            assert(s[w] is Some);
        }
    }
}

/// A round over the guests that finds room stops at a guest with room.
pub proof fn lemma_first_room_has_room(guests: Seq<Guest>, s: int, n: int, k: int)
    requires
        first_room(guests, s, n, k) is Some,
    ensures
        room_for_hart(guests[attempt_index(s, first_room(guests, s, n, k)->0, n)]),
        k <= first_room(guests, s, n, k)->0 < n,
    decreases n - k,
{
    if k < n && !room_for_hart(guests[attempt_index(s, k, n)]) {
        lemma_first_room_has_room(guests, s, n, k + 1);
    }
}

/// A hart that takes a vCPU from a guest with room for it and then gives
/// that vCPU back leaves the guest as it found it, but for the order of its
/// pool: the same count of harts without an assignment, as many slots and as
/// many pooled vCPUs, the vCPU back in the pool, and a well-formed pool.
pub proof fn lemma_take_then_release(g: Guest, g1: Guest, g2: Guest)
    requires
        pool_ok(g),
        room_for_hart(g),
        took_vcpu(g, g1),
        released_vcpu(seq![g1], seq![g2], 0, g.vcpu_ptrs@[0]->0),
    ensures
        same_guest_but_claims(g, g2),
        g2.active_hart_count == g.active_hart_count,
        g2.active_assigned_hart_count == g.active_assigned_hart_count,
        g2.vcpu_ptrs@.len() == g.vcpu_ptrs@.len(),
        pool_size(g2.vcpu_ptrs@) == pool_size(g.vcpu_ptrs@),
        g2.vcpu_ptrs@.contains(g.vcpu_ptrs@[0]),
        pool_ok(g2),
{
    let s = g.vcpu_ptrs@;
    assert(seq![g1][0] == g1 && seq![g2][0] == g2);
    if forall|x: int| 0 <= x < s.len() ==> #[trigger] s[x] is None {
        lemma_pool_size_empty(s);
    }
    let w = choose|x: int| 0 <= x < s.len() && !(#[trigger] s[x] is None);
    if w > 0 {
        assert(s[w] is Some);
    }
    assert(s[0] is Some);
    let v = s[0]->0;
    let s1 = pool_after_take(s);
    lemma_pool_size_push_none(s.drop_first());
    assert(pool_size(s) == 1 + pool_size(s.drop_first()));
    assert(packed(s1)) by {
        assert forall|i: int, j: int| 0 <= i < j < s1.len() && #[trigger] s1[j] is Some implies #[trigger] s1[i] is Some by {
            assert(s[j + 1] is Some);
        }
    }
    assert(s1[s1.len() - 1] is None);
    lemma_first_free_slot(s1);
    let f = first_free_slot(s1);
    let s2 = s1.update(f, Some(v));
    assert(g2.vcpu_ptrs@ == s2);
    lemma_pool_size_update(s1, f, v);
    assert(s2[f] == s[0]);
    assert forall|a: int, b: int| 0 <= a < b < s2.len() && #[trigger] s2[b] is Some implies #[trigger] s2[a] is Some by {
        if b != f && a != f {
            assert(s1[b] is Some);
        }
    }
}

/// An assigned hart that takes a place in a guest and leaves it again leaves
/// the guest as it found it.
pub proof fn lemma_take_then_leave_assigned_place(g: Guest, g1: Guest, g2: Guest)
    requires
        room_for_assigned_hart(g),
        took_assigned_place(g, g1),
        released_assigned_place(seq![g1], seq![g2], 0),
    ensures
        same_guest_but_claims(g, g2),
        g2.active_assigned_hart_count == g.active_assigned_hart_count,
        g2.active_hart_count == g.active_hart_count,
        g2.vcpu_ptrs@ == g.vcpu_ptrs@,
{
    assert(seq![g1][0] == g1 && seq![g2][0] == g2);
}

/// Counts one assigned hart less on guest `guest_id`.
pub fn release_assigned_place(guests: &mut Vec<Guest>, guest_id: usize)
    requires
        guest_id < old(guests)@.len(),
    ensures
        released_assigned_place(old(guests)@, final(guests)@, guest_id as int),
{
    // Update the global active assigned hart counter.
    let count = guests[guest_id].active_assigned_hart_count;
    guests[guest_id].active_assigned_hart_count = count.wrapping_sub(1);
}

/// Tries the guests one after the other, starting at `next_guest_id` (at the
/// first guest when that is past the end) and going round once, for one with
/// room for a hart without an assignment; takes its first pooled vCPU.
/// `None` when none has room.
pub fn claim_vcpu_in_round(guests: &mut Vec<Guest>, next_guest_id: usize) -> (r: Option<(VcpuRef, usize)>)
    requires
        old(guests)@.len() > 0,
        pools_ready(old(guests)@),
    ensures
        vcpu_round_outcome(old(guests)@, final(guests)@, next_guest_id as int, r),
{
    let n = guests.len();
    let mut guest_id = next_guest_id;
    if n <= guest_id {
        guest_id = 0;
    }
    let ghost s = guest_id as int;
    proof {
        vstd::arithmetic::div_mod::lemma_small_mod(s as nat, n as nat);
    }
    let mut k: usize = 0;
    while k < n
        invariant
            n == guests@.len(),
            guests@ == old(guests)@,
            n > 0,
            s == round_start(next_guest_id as int, n as int),
            0 <= s < n,
            k <= n,
            guest_id == attempt_index(s, k as int, n as int),
            pools_ready(guests@),
            first_room(guests@, s, n as int, 0) == first_room(guests@, s, n as int, k as int),
        decreases n - k,
    {
        proof {
            vstd::arithmetic::div_mod::lemma_mod_bound(s + k, n as int);
        }
        let claimed = claim_vcpu_for_hart_if_available(guests, guest_id);
        match claimed {
            Ok(v) => {
                return Some((v, guest_id));
            },
            Err(()) => {
                guest_id = guest_id + 1;
                if n <= guest_id {
                    guest_id = 0;
                }
                proof {
                    let a = s + k;
                    vstd::arithmetic::div_mod::lemma_mod_bound(a, n as int);
                    if (a % n as int) + 1 == n {
                        vstd::arithmetic::div_mod::lemma_mod_add_multiples_vanish(a + 1, n as int);
                        lemma_mod_step(a, n as int);
                    } else {
                        lemma_mod_step(a, n as int);
                    }
                }
                k = k + 1;
            },
        }
    }
    None
}

proof fn lemma_mod_step(a: int, n: int)
    requires
        0 <= a,
        0 < n,
    ensures
        (a + 1) % n == if a % n + 1 == n { 0 } else { a % n + 1 },
{
    vstd::arithmetic::div_mod::lemma_fundamental_div_mod(a, n);
    vstd::arithmetic::div_mod::lemma_mod_bound(a, n);
    let q = a / n;
    let r = a % n;
    if r + 1 == n {
        assert(a + 1 == (q + 1) * n) by (nonlinear_arith)
            requires
                a == n * q + r,
                r + 1 == n,
        ;
        vstd::arithmetic::div_mod::lemma_mod_multiples_basic(q + 1, n);
    } else {
        assert(a + 1 == q * n + (r + 1)) by (nonlinear_arith)
            requires
                a == n * q + r,
        ;
        vstd::arithmetic::div_mod::lemma_mod_multiples_vanish(q, r + 1, n);
        vstd::arithmetic::div_mod::lemma_small_mod((r + 1) as nat, n as nat);
    }
}

/// Tries the guests of an assigned hart, one slot after the other, starting
/// at slot `next_slot` (at the first slot when that is past the end) and going
/// round once, for one with room for one more assigned hart, and takes a
/// place in it.  Returns the vCPU pointer that the hart keeps for that slot,
/// and the slot.  `Ok(None)` when none has room; `Err` when an empty slot
/// comes first.
pub fn claim_assigned_in_round(guests: &mut Vec<Guest>, hart: &Hart, next_slot: usize) -> (r: Result<Option<(Option<VcpuRef>, usize)>, ()>)
    requires
        hart.guests@.len() > 0,
        hart.dedicated_to@.len() == hart.guests@.len(),
        forall|j: int|
            0 <= j < hart.guests@.len() && #[trigger] hart.guests@[j] is Some
                ==> hart.guests@[j]->0 < old(guests)@.len(),
    ensures
        assigned_round_outcome(old(guests)@, final(guests)@, *hart, next_slot as int, r),
{
    let n = hart.guests.len();
    let mut slot = next_slot;
    if n <= slot {
        slot = 0;
    }
    let ghost s = slot as int;
    proof {
        vstd::arithmetic::div_mod::lemma_small_mod(s as nat, n as nat);
    }
    let mut k: usize = 0;
    while k < n
        invariant
            n == hart.guests@.len(),
            hart.dedicated_to@.len() == n,
            guests@ == old(guests)@,
            n > 0,
            s == round_start(next_slot as int, n as int),
            0 <= s < n,
            k <= n,
            slot == attempt_index(s, k as int, n as int),
            forall|j: int|
                0 <= j < hart.guests@.len() && #[trigger] hart.guests@[j] is Some
                    ==> hart.guests@[j]->0 < old(guests)@.len(),
            first_assigned_room(guests@, hart.guests@, s, n as int, 0) == first_assigned_room(guests@, hart.guests@, s, n as int, k as int),
        decreases n - k,
    {
        proof {
            vstd::arithmetic::div_mod::lemma_mod_bound(s + k, n as int);
        }
        match hart.guests[slot] {
            None => {
                return Err(());
            },
            Some(guest_id) => {
                if claim_assigned_hart_slot_if_available(guests, guest_id).is_ok() {
                    return Ok(Some((hart.dedicated_to[slot], slot)));
                }
            },
        }
        slot = slot + 1;
        if n <= slot {
            slot = 0;
        }
        proof {
            lemma_mod_step(s + k, n as int);
        }
        k = k + 1;
    }
    Ok(None)
}

} // verus!
