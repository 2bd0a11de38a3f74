//! The virtual CPU: the register file of a guest hart and its set-up.

use crate::allocator::{
    block_bytes, block_size, first_nonempty, page_round_up, request_order, Heap, FREE_LIST_LENGTH,
};
use crate::guest_table::{hgatp_value, GuestPageTable};
use crate::memory::{byte_of, Memory};
use crate::allocator::alloc_pages;
use crate::guest::{
    assigned_round_outcome, attempt_index, claim_assigned_in_round, claim_vcpu_in_round,
    first_assigned_room, first_room, harts_consistent, pool_after_release, pool_ok, pools_ready,
    release_assigned_place, release_vcpu, released_assigned_place, released_vcpu, room_for_hart,
    round_start, vcpu_round_outcome, pool_after_take, Guest, SchedulingError, VcpuRef,
};
use crate::multihart::{dedicated, is_hart_dedicated, Hart};
use vstd::prelude::*;

verus! {

/// Time from a guest's start until its timer interrupt, in `time` ticks.
pub const TIMER_OFFSET: u64 = 10_000;

/// Size of a hart's hypervisor stack.
pub const VCPU_STACK_SIZE: usize = 512 * 1024;

/// Number of vector registers.
pub const VECTOR_REGISTER_COUNT: usize = 32;

/// `hstatus.VSXL`: VS-mode XLEN of 64 bits.
pub const HSTATUS_VSXL_64: u64 = 2 << 32;

/// `hstatus.SPV`: `sret` enters virtual mode.
pub const HSTATUS_SPV: u64 = 1 << 7;

/// `sstatus.VS` set to Initial: the vector extension is on.
pub const SSTATUS_VS_INITIAL: u64 = 1 << 9;

/// `sstatus.FS` set to Initial: the floating-point extension is on.
pub const SSTATUS_FS_INITIAL: u64 = 1 << 13;

/// `sstatus.SPP`: `sret` enters supervisor (VS) mode.
pub const SSTATUS_SPP: u64 = 1 << 8;

/// The saved state of one guest hart.
#[derive(Debug, Clone)]
pub struct Vcpu {
    pub host_hart_id: usize,
    pub guest_id_for_hart: usize,
    // Host registers
    pub host_sp: u64,
    // General purpose registers
    pub ra: u64,
    pub sp: u64,
    pub gp: u64,
    pub tp: u64,
    pub t0: u64,
    pub t1: u64,
    pub t2: u64,
    pub s0: u64,
    pub s1: u64,
    pub a0: u64,
    pub a1: u64,
    pub a2: u64,
    pub a3: u64,
    pub a4: u64,
    pub a5: u64,
    pub a6: u64,
    pub a7: u64,
    pub s2: u64,
    pub s3: u64,
    pub s4: u64,
    pub s5: u64,
    pub s6: u64,
    pub s7: u64,
    pub s8: u64,
    pub s9: u64,
    pub s10: u64,
    pub s11: u64,
    pub t3: u64,
    pub t4: u64,
    pub t5: u64,
    pub t6: u64,
    // CSRs
    pub hstatus: u64,
    pub hgatp: u64,
    pub sstatus: u64,
    pub sepc: u64,
    pub scause: u64,
    // Virtual-mode registers
    pub vsstatus: u64,
    pub vstvec: u64,
    pub vsscratch: u64,
    pub vsepc: u64,
    pub vscause: u64,
    pub vstval: u64,
    pub vsie: u64,
    pub vsatp: u64,
    pub vstimecmp: u64,
    /// Vector registers `v0` to `v31`, each of `VLEN / 32` words.
    pub vector_registers: Vec<Vec<u32>>,
    /// Floating-point registers `f0` to `f31`, as the bits of their `f64` values.
    pub float_registers: [u64; 32],
}

/// The vector registers are 32 registers of `vlen / 32` words each.
pub open spec fn vector_file_ok(v: Seq<Vec<u32>>, vlen: usize) -> bool {
    &&& v.len() == VECTOR_REGISTER_COUNT
    &&& forall|i: int| 0 <= i < v.len() ==> #[trigger] v[i]@.len() == vlen / 32
}

/// Every vector register word is zero.
pub open spec fn vector_file_zero(v: Seq<Vec<u32>>) -> bool {
    forall|i: int, j: int|
        0 <= i < v.len() && 0 <= j < v[i]@.len() ==> #[trigger] v[i]@[j] == 0
}

/// Every scalar register of `v` is zero.
pub open spec fn scalars_zero(v: Vcpu) -> bool {
    &&& v.host_hart_id == 0 && v.guest_id_for_hart == 0 && v.host_sp == 0
    &&& v.ra == 0 && v.sp == 0 && v.gp == 0 && v.tp == 0 && v.t0 == 0 && v.t1 == 0 && v.t2 == 0
    &&& v.s0 == 0 && v.s1 == 0 && v.a0 == 0 && v.a1 == 0 && v.a2 == 0 && v.a3 == 0 && v.a4 == 0
    &&& v.a5 == 0 && v.a6 == 0 && v.a7 == 0 && v.s2 == 0 && v.s3 == 0 && v.s4 == 0 && v.s5 == 0
    &&& v.s6 == 0 && v.s7 == 0 && v.s8 == 0 && v.s9 == 0 && v.s10 == 0 && v.s11 == 0
    &&& v.t3 == 0 && v.t4 == 0 && v.t5 == 0 && v.t6 == 0
    &&& v.hstatus == 0 && v.hgatp == 0 && v.sstatus == 0 && v.sepc == 0 && v.scause == 0
    &&& v.vsstatus == 0 && v.vstvec == 0 && v.vsscratch == 0 && v.vsepc == 0 && v.vscause == 0
    &&& v.vstval == 0 && v.vsie == 0 && v.vsatp == 0 && v.vstimecmp == 0
    &&& forall|i: int| 0 <= i < 32 ==> #[trigger] v.float_registers@[i] == 0
}

/// The initial `hstatus` of a guest: 64-bit VS mode, entered by `sret`.
pub open spec fn initial_hstatus() -> u64 {
    HSTATUS_SPV | HSTATUS_VSXL_64
}

/// The initial `vsstatus` of a guest: vector and floating-point units on.
pub open spec fn initial_vsstatus() -> u64 {
    SSTATUS_VS_INITIAL | SSTATUS_FS_INITIAL
}

/// The initial `sstatus` for entering a guest: supervisor mode, vector and
/// floating-point units on.
pub open spec fn initial_sstatus() -> u64 {
    SSTATUS_SPP | SSTATUS_VS_INITIAL | SSTATUS_FS_INITIAL
}

impl Vcpu {
    /// A vCPU whose registers are all zero, with vector registers of `vlen` bits.
    pub fn zeroed(vlen: usize) -> (r: Vcpu)
        ensures
            scalars_zero(r),
            vector_file_ok(r.vector_registers@, vlen),
            vector_file_zero(r.vector_registers@),
    {
        let words = vlen / 32;
        let mut vector_registers: Vec<Vec<u32>> = Vec::new();
        let mut i: usize = 0;
        while i < VECTOR_REGISTER_COUNT
            invariant
                i <= VECTOR_REGISTER_COUNT,
                words == vlen / 32,
                vector_registers@.len() == i,
                forall|k: int| 0 <= k < i ==> #[trigger] vector_registers@[k]@.len() == words,
                vector_file_zero(vector_registers@),
            decreases VECTOR_REGISTER_COUNT - i,
        {
            let mut reg: Vec<u32> = Vec::new();
            let mut j: usize = 0;
            while j < words
                invariant
                    j <= words,
                    reg@.len() == j,
                    forall|k: int| 0 <= k < j ==> #[trigger] reg@[k] == 0,
                decreases words - j,
            {
                reg.push(0);
                j = j + 1;
            }
            vector_registers.push(reg);
            i = i + 1;
        }
        Vcpu {
            host_hart_id: 0,
            guest_id_for_hart: 0,
            host_sp: 0,
            ra: 0,
            sp: 0,
            gp: 0,
            tp: 0,
            t0: 0,
            t1: 0,
            t2: 0,
            s0: 0,
            s1: 0,
            a0: 0,
            a1: 0,
            a2: 0,
            a3: 0,
            a4: 0,
            a5: 0,
            a6: 0,
            a7: 0,
            s2: 0,
            s3: 0,
            s4: 0,
            s5: 0,
            s6: 0,
            s7: 0,
            s8: 0,
            s9: 0,
            s10: 0,
            s11: 0,
            t3: 0,
            t4: 0,
            t5: 0,
            t6: 0,
            hstatus: 0,
            hgatp: 0,
            sstatus: 0,
            sepc: 0,
            scause: 0,
            vsstatus: 0,
            vstvec: 0,
            vsscratch: 0,
            vsepc: 0,
            vscause: 0,
            vstval: 0,
            vsie: 0,
            vsatp: 0,
            vstimecmp: 0,
            vector_registers,
            float_registers: [0u64; 32],
        }
    }

    /// The vCPU that boots a guest: the page table `table`, execution
    /// starting at `guest_entry` in VS mode with vector and floating-point
    /// units on, `a0` holding the virtual hart id, and a fresh 512 KiB stack
    /// for the hypervisor (`host_sp` at its top).  Every other register is
    /// zero.  `None` when the heap has no room for the stack.
    pub fn new(
        table: &GuestPageTable,
        guest_entry: u64,
        virtual_hart_id: u64,
        heap: &mut Heap,
        mem: &mut Memory,
        vlen: usize,
    ) -> (r: Option<Vcpu>)
        requires
            old(heap).wf(),
            old(heap).memory_clean(old(mem)@),
        ensures
            final(heap).wf(),
            final(heap).memory_clean(final(mem)@),
            final(heap).base_addr == old(heap).base_addr,
            final(heap).limit@ == old(heap).limit@,
            old(heap).handed_out@.subset_of(final(heap).handed_out@),
            forall|x: int| #[trigger]
                old(heap).handed_out@.contains(x) ==> byte_of(final(mem)@, x) == byte_of(
                    old(mem)@,
                    x,
                ),
            r is None <==> first_nonempty(old(heap).free_list@, 19) == FREE_LIST_LENGTH,
            r is None ==> final(heap).free_list@ == old(heap).free_list@,
            r is Some ==> final(heap).free_list@ == crate::allocator::after_clean_alloc(old(heap).free_list@, 19),
            r matches Some(v) ==> {
                let stack = old(heap).free_list@[first_nonempty(old(heap).free_list@, 19)] as int;
                &&& v.hstatus == initial_hstatus()
                &&& v.hgatp == hgatp_value(table.table)
                &&& v.sstatus == initial_sstatus()
                &&& v.sepc == guest_entry
                &&& v.host_sp == stack + VCPU_STACK_SIZE
                &&& v.vsstatus == initial_vsstatus()
                &&& v.a0 == virtual_hart_id
                &&& final(heap).handed_out@ == old(heap).handed_out@.union(block_bytes(stack, 19))
                &&& scalars_zero(Vcpu {
                    hstatus: 0,
                    hgatp: 0,
                    sstatus: 0,
                    sepc: 0,
                    host_sp: 0,
                    vsstatus: 0,
                    a0: 0,
                    ..v
                })
                &&& vector_file_ok(v.vector_registers@, vlen)
                &&& vector_file_zero(v.vector_registers@)
            },
    {
        // Set the XLEN for VS-mode (VSXL bitfield) to 64 bits in hstatus.
        let hstatus_vsxl: u64 = HSTATUS_VSXL_64;
        // Set Supervisor Previous Virtualization (SPV) to 1 so the sret instruction boots the CPU into virtual mode.
        let hstatus_spv: u64 = HSTATUS_SPV;
        let hstatus: u64 = hstatus_spv | hstatus_vsxl;
        // Set the Vector Status (VS) and the Floating-point Status (FS)
        // bitfield in vsstatus to enable vector extension in VS-mode.
        let sstatus_vs: u64 = SSTATUS_VS_INITIAL;
        let sstatus_fs: u64 = SSTATUS_FS_INITIAL;
        let vsstatus = sstatus_vs | sstatus_fs;
        // Set Supervisor Previous Privilege mode (SPP) to 1 so the sret instruction boots the CPU into Supervisor mode (VS-mode in our case).
        let sstatus_spp: u64 = SSTATUS_SPP;
        let sstatus: u64 = sstatus_spp | sstatus_vs | sstatus_fs;
        // Set harts stack size.
        let stack_size = VCPU_STACK_SIZE;
        proof {
            lemma_stack_order();
            crate::allocator::lemma_first_nonempty(old(heap).free_list@, 19);
            if old(heap).free_list@[19] != 0 {
                crate::allocator::lemma_clean_head_link(*old(heap), old(mem)@, 19);
            }
        }
        let stack = alloc_pages(heap, mem, stack_size);
        match stack {
            None => None,
            Some(stack) => {
                let host_sp: u64 = stack as u64 + stack_size as u64;
                let mut v = Vcpu::zeroed(vlen);
                v.hstatus = hstatus;
                v.hgatp = table.hgatp();
                v.sstatus = sstatus;
                v.sepc = guest_entry;
                v.host_sp = host_sp;
                v.vsstatus = vsstatus;
                v.a0 = virtual_hart_id;
                Some(v)
            },
        }
    }

    /// Prepares the first run of this vCPU on hart `host_hart_id`, as the
    /// `guest_id_for_hart`-th guest of that hart, at time `time`: returns the
    /// timer compare value, `time + TIMER_OFFSET`.
    pub fn very_fisrt_run(&mut self, host_hart_id: usize, guest_id_for_hart: usize, time: u64) -> (deadline: u64)
        requires
            time <= u64::MAX - TIMER_OFFSET,
        ensures
            deadline == time + TIMER_OFFSET,
            *final(self) == (Vcpu { host_hart_id, guest_id_for_hart, ..*old(self) }),
    {
        let deadline = time + TIMER_OFFSET;
        self.guest_id_for_hart = guest_id_for_hart;
        self.host_hart_id = host_hart_id;
        deadline
    }
}

/// `v` made ready to run on hart `hart_id` as its `slot`-th guest, with the
/// hart's stack top `sp` and the timer deadline `deadline`.
pub open spec fn scheduled_copy(v: Vcpu, slot: usize, hart_id: usize, sp: u64, deadline: u64) -> Vcpu {
    Vcpu { guest_id_for_hart: slot, host_hart_id: hart_id, host_sp: sp, vstimecmp: deadline, ..v }
}

/// Fills `next` with the values of the hart it is to run on.
fn schedule_on(next: &mut Vcpu, slot: usize, hart_id: usize, sp: u64, deadline: u64)
    ensures
        *final(next) == scheduled_copy(*old(next), slot, hart_id, sp, deadline),
{
    next.guest_id_for_hart = slot;
    next.host_hart_id = hart_id;
    next.host_sp = sp;
    next.vstimecmp = deadline;
}

/// `after` is `before` with the vCPU `v` made ready to run on hart `hart_id`
/// as its `slot`-th guest: with that hart's stack top `sp` and the timer
/// deadline `deadline`.
pub open spec fn vcpu_prepared(
    before: Seq<Guest>,
    after: Seq<Guest>,
    v: VcpuRef,
    slot: usize,
    hart_id: usize,
    sp: u64,
    deadline: u64,
) -> bool {
    let old_v = before[v.guest as int].vcpus@[v.slot as int]->0;
    &&& after.len() == before.len()
    &&& after[v.guest as int].vcpus@ == before[v.guest as int].vcpus@.update(
        v.slot as int,
        Some(scheduled_copy(old_v, slot, hart_id, sp, deadline)),
    )
    &&& after[v.guest as int].entry_gpa == before[v.guest as int].entry_gpa
    &&& after[v.guest as int].vcpu_ptrs@ == before[v.guest as int].vcpu_ptrs@
    &&& after[v.guest as int].active_hart_count == before[v.guest as int].active_hart_count
    &&& after[v.guest as int].active_assigned_hart_count == before[v.guest as int].active_assigned_hart_count
    &&& after[v.guest as int].hart_capacity == before[v.guest as int].hart_capacity
    &&& after[v.guest as int].assigned_hart_capacity == before[v.guest as int].assigned_hart_capacity
    &&& after[v.guest as int].assigned_harts@ == before[v.guest as int].assigned_harts@
    &&& after[v.guest as int].data@ == before[v.guest as int].data@
    &&& forall|i: int| 0 <= i < before.len() && i != v.guest ==> #[trigger] after[i] == before[i]
}

/// The vCPU `v` exists in `guests`.
pub open spec fn vcpu_exists(guests: Seq<Guest>, v: VcpuRef) -> bool {
    &&& v.guest < guests.len()
    &&& v.slot < guests[v.guest as int].vcpus@.len()
    &&& guests[v.guest as int].vcpus@[v.slot as int] is Some
}

/// The last step of a switch: the chosen vCPU `v` is made ready, or the
/// switch fails when `v` names no vCPU.
pub open spec fn switch_finished(
    before: Seq<Guest>,
    after: Seq<Guest>,
    v: VcpuRef,
    slot: usize,
    hart_id: usize,
    sp: u64,
    deadline: u64,
    r: Result<VcpuRef, SchedulingError>,
) -> bool {
    if vcpu_exists(before, v) {
        r == Ok::<VcpuRef, SchedulingError>(v) && vcpu_prepared(before, after, v, slot, hart_id, sp, deadline)
    } else {
        r == Err::<VcpuRef, SchedulingError>(SchedulingError::MissingVcpu) && after == before
    }
}

/// The outcome of the switch of hart away from the vCPU `current` at time
/// `time`: the vCPU is released, the next guest with room is found in a round
/// that starts after the current one, and its vCPU is made ready.
pub open spec fn next_guest_outcome(
    before: Seq<Guest>,
    after: Seq<Guest>,
    harts: Seq<Hart>,
    current: VcpuRef,
    time: u64,
    r: Result<VcpuRef, SchedulingError>,
) -> bool {
    let cur = before[current.guest as int].vcpus@[current.slot as int]->0;
    let h = cur.host_hart_id;
    let gfh = cur.guest_id_for_hart;
    let deadline = (time + TIMER_OFFSET) as u64;
    if dedicated(harts[h as int]) {
        let hart = harts[h as int];
        match hart.guests@[gfh as int] {
            None => r == Err::<VcpuRef, SchedulingError>(SchedulingError::EmptyAssignmentSlot) && after == before,
            Some(gi) => exists|mid: Seq<Guest>, mid2: Seq<Guest>, res: Result<Option<(Option<VcpuRef>, usize)>, ()>|
                #![trigger released_assigned_place(before, mid, gi as int), assigned_round_outcome(mid, mid2, hart, gfh + 1, res)]
                {
                    &&& released_assigned_place(before, mid, gi as int)
                    &&& assigned_round_outcome(mid, mid2, hart, gfh + 1, res)
                    &&& match res {
                        Err(()) => r == Err::<VcpuRef, SchedulingError>(SchedulingError::EmptyAssignmentSlot) && after == mid2,
                        Ok(None) => r == Err::<VcpuRef, SchedulingError>(SchedulingError::NoGuestReady) && after == mid2,
                        Ok(Some((None, _))) => r == Err::<VcpuRef, SchedulingError>(SchedulingError::NullVcpu) && after == mid2,
                        Ok(Some((Some(nv), k))) => switch_finished(mid2, after, nv, k, h, cur.host_sp, deadline, r),
                    }
                },
        }
    } else {
        exists|mid: Seq<Guest>, mid2: Seq<Guest>, res: Option<(VcpuRef, usize)>|
            #![trigger released_vcpu(before, mid, gfh as int, current), vcpu_round_outcome(mid, mid2, gfh + 1, res)]
            {
                &&& released_vcpu(before, mid, gfh as int, current)
                &&& vcpu_round_outcome(mid, mid2, gfh + 1, res)
                &&& match res {
                    None => r == Err::<VcpuRef, SchedulingError>(SchedulingError::NoGuestReady) && after == mid2,
                    Some((nv, gi)) => switch_finished(mid2, after, nv, gi, h, cur.host_sp, deadline, r),
                }
            }
    }
}

/// Makes the vCPU `v` ready to run on hart `hart_id` as its `slot`-th guest.
fn prepare_vcpu(
    guests: &mut Vec<Guest>,
    v: VcpuRef,
    slot: usize,
    hart_id: usize,
    sp: u64,
    deadline: u64,
) -> (r: Result<VcpuRef, SchedulingError>)
    ensures
        switch_finished(old(guests)@, final(guests)@, v, slot, hart_id, sp, deadline, r),
{
    if v.guest >= guests.len() || v.slot >= guests[v.guest].vcpus.len() {
        return Err(SchedulingError::MissingVcpu);
    }
    if guests[v.guest].vcpus[v.slot].is_none() {
        return Err(SchedulingError::MissingVcpu);
    }
    let mut taken: Option<Vcpu> = None;
    std::mem::swap(&mut guests[v.guest].vcpus[v.slot], &mut taken);
    match taken {
        None => {
            Err(SchedulingError::MissingVcpu)
        },
        Some(mut next) => {
            // Fill the new vcpu with correct values for this hart.
            schedule_on(&mut next, slot, hart_id, sp, deadline);
            let mut filled = Some(next);
            std::mem::swap(&mut guests[v.guest].vcpus[v.slot], &mut filled);
            proof {
                assert(guests@[v.guest as int].vcpus@ =~= old(guests)@[v.guest as int].vcpus@.update(
                    v.slot as int,
                    Some(next),
                ));
            }
            Ok(v)
        },
    }
}

proof fn lemma_release_keeps_pools_ready(before: Seq<Guest>, after: Seq<Guest>, gi: int, v: VcpuRef)
    requires
        0 <= gi < before.len(),
        pools_ready(before),
        released_vcpu(before, after, gi, v),
        before[gi].vcpu_ptrs@.len() > 0,
    ensures
        pools_ready(after),
{
    assert forall|i: int| 0 <= i < after.len() && #[trigger] room_for_hart(after[i]) implies after[i].vcpu_ptrs@.len() > 0
        && after[i].vcpu_ptrs@[0] is Some by {
        if i == gi {
            let s = before[gi].vcpu_ptrs@;
            if s[0] is None {
                assert(exists|x: int| 0 <= x < s.len() && #[trigger] s[x] is None);
                crate::guest::lemma_first_free_slot_basic(s);
                let f = crate::guest::first_free_slot(s);
                assert(f == 0) by {
                    if f > 0 {
                        assert(s[0] is Some);
                    }
                }
            } else if exists|x: int| 0 <= x < s.len() && #[trigger] s[x] is None {
                crate::guest::lemma_first_free_slot_basic(s);
                let f = crate::guest::first_free_slot(s);
                assert(f != 0);
            }
        } else {
            assert(after[i] == before[i]);
        }
    }
}

/// The pool of a guest is well formed when its pool, its count of harts
/// without an assignment and its hart capacity are those of a guest whose
/// pool is.
proof fn lemma_pool_ok_same_fields(g: Guest, g2: Guest)
    requires
        pool_ok(g),
        g2.vcpu_ptrs@ == g.vcpu_ptrs@,
        g2.active_hart_count == g.active_hart_count,
        g2.hart_capacity == g.hart_capacity,
    ensures
        pool_ok(g2),
{
}

/// Making a vCPU ready, or failing to, keeps every guest's pool well formed.
proof fn lemma_switch_finished_keeps_pools(
    before: Seq<Guest>,
    after: Seq<Guest>,
    v: VcpuRef,
    slot: usize,
    hart_id: usize,
    sp: u64,
    deadline: u64,
    r: Result<VcpuRef, SchedulingError>,
)
    requires
        switch_finished(before, after, v, slot, hart_id, sp, deadline, r),
        forall|i: int| 0 <= i < before.len() ==> #[trigger] pool_ok(before[i]),
    ensures
        forall|i: int| 0 <= i < after.len() ==> #[trigger] pool_ok(after[i]),
{
    if vcpu_exists(before, v) {
        assert forall|i: int| 0 <= i < after.len() implies #[trigger] pool_ok(after[i]) by {
            if i == v.guest {
                lemma_pool_ok_same_fields(before[i], after[i]);
            } else {
                assert(after[i] == before[i]);
            }
        }
    }
}

/// Switching a hart to its next guest keeps every guest's pool well formed:
/// the vCPU given back and the vCPU taken leave each pool packed, with a vCPU
/// for every free place of its guest, so the guests stay ready for the next
/// switch.  The hart that gives a vCPU back to its guest is counted in that
/// guest.
pub proof fn lemma_switch_keeps_pools(
    before: Seq<Guest>,
    after: Seq<Guest>,
    harts: Seq<Hart>,
    current: VcpuRef,
    time: u64,
    r: Result<VcpuRef, SchedulingError>,
)
    requires
        next_guest_outcome(before, after, harts, current, time, r),
        vcpu_exists(before, current),
        harts_consistent(before, harts),
        forall|i: int| 0 <= i < before.len() ==> #[trigger] pool_ok(before[i]),
        ({
            let cur = before[current.guest as int].vcpus@[current.slot as int]->0;
            let h = cur.host_hart_id as int;
            let gfh = cur.guest_id_for_hart as int;
            &&& h < harts.len()
            &&& dedicated(harts[h]) ==> gfh < harts[h].guests@.len()
            &&& !dedicated(harts[h]) ==> gfh < before.len() && before[gfh].active_hart_count > 0
        }),
    ensures
        forall|i: int| 0 <= i < after.len() ==> #[trigger] pool_ok(after[i]),
{
    let cur = before[current.guest as int].vcpus@[current.slot as int]->0;
    let h = cur.host_hart_id;
    let gfh = cur.guest_id_for_hart;
    let deadline = (time + TIMER_OFFSET) as u64;
    if dedicated(harts[h as int]) {
        let hart = harts[h as int];
        match hart.guests@[gfh as int] {
            None => {},
            Some(gi) => {
                assert(gi < before.len());
                let (mid, mid2, res) = choose|
                    mid: Seq<Guest>,
                    mid2: Seq<Guest>,
                    res: Result<Option<(Option<VcpuRef>, usize)>, ()>,
                |
                    #![trigger released_assigned_place(before, mid, gi as int), assigned_round_outcome(mid, mid2, hart, gfh + 1, res)]
                    {
                        &&& released_assigned_place(before, mid, gi as int)
                        &&& assigned_round_outcome(mid, mid2, hart, gfh + 1, res)
                        &&& match res {
                            Err(()) => r == Err::<VcpuRef, SchedulingError>(SchedulingError::EmptyAssignmentSlot) && after == mid2,
                            Ok(None) => r == Err::<VcpuRef, SchedulingError>(SchedulingError::NoGuestReady) && after == mid2,
                            Ok(Some((None, _))) => r == Err::<VcpuRef, SchedulingError>(SchedulingError::NullVcpu) && after == mid2,
                            Ok(Some((Some(nv), k))) => switch_finished(mid2, after, nv, k, h, cur.host_sp, deadline, r),
                        }
                    };
                assert forall|i: int| 0 <= i < mid.len() implies #[trigger] pool_ok(mid[i]) by {
                    if i == gi {
                        lemma_pool_ok_same_fields(before[i], mid[i]);
                    } else {
                        assert(mid[i] == before[i]);
                    }
                }
                let n = hart.guests@.len() as int;
                let st = round_start(gfh + 1, n);
                assert forall|i: int| 0 <= i < mid2.len() implies #[trigger] pool_ok(mid2[i]) by {
                    match first_assigned_room(mid, hart.guests@, st, n, 0) {
                        Ok(Some(k)) => {
                            let a = attempt_index(st, k, n);
                            let gj = hart.guests@[a]->0 as int;
                            if i == gj {
                                lemma_pool_ok_same_fields(mid[i], mid2[i]);
                            } else {
                                assert(mid2[i] == mid[i]);
                            }
                        },
                        _ => {},
                    }
                }
                match res {
                    Ok(Some((Some(nv), k))) => {
                        lemma_switch_finished_keeps_pools(mid2, after, nv, k, h, cur.host_sp, deadline, r);
                    },
                    _ => {},
                }
            },
        }
    } else {
        let (mid, mid2, res) = choose|mid: Seq<Guest>, mid2: Seq<Guest>, res: Option<(VcpuRef, usize)>|
            #![trigger released_vcpu(before, mid, gfh as int, current), vcpu_round_outcome(mid, mid2, gfh + 1, res)]
            {
                &&& released_vcpu(before, mid, gfh as int, current)
                &&& vcpu_round_outcome(mid, mid2, gfh + 1, res)
                &&& match res {
                    None => r == Err::<VcpuRef, SchedulingError>(SchedulingError::NoGuestReady) && after == mid2,
                    Some((nv, gi)) => switch_finished(mid2, after, nv, gi, h, cur.host_sp, deadline, r),
                }
            };
        assert forall|i: int| 0 <= i < mid.len() implies #[trigger] pool_ok(mid[i]) by {
            if i == gfh {
                crate::guest::lemma_release_keeps_pool_ok(before[i], mid[i], current);
            } else {
                assert(mid[i] == before[i]);
            }
        }
        let n = mid.len() as int;
        let st = round_start(gfh + 1, n);
        assert forall|i: int| 0 <= i < mid2.len() implies #[trigger] pool_ok(mid2[i]) by {
            match first_room(mid, st, n, 0) {
                Some(k) => {
                    let gi = attempt_index(st, k, n);
                    if i == gi {
                        crate::guest::lemma_first_room_has_room(mid, st, n, 0);
                        crate::guest::lemma_take_keeps_pool_ok(mid[i], mid2[i]);
                    } else {
                        assert(mid2[i] == mid[i]);
                    }
                },
                None => {},
            }
        }
        match res {
            Some((nv, gi)) => {
                lemma_switch_finished_keeps_pools(mid2, after, nv, gi, h, cur.host_sp, deadline, r);
            },
            None => {},
        }
    }
}

/// The vCPU `current` exists and names a hart, and a guest slot of that
/// hart (or a guest with a pool), that a switch can go on from.
pub open spec fn switch_allowed(guests: Seq<Guest>, harts: Seq<Hart>, current: VcpuRef) -> bool {
    let cur = guests[current.guest as int].vcpus@[current.slot as int]->0;
    &&& vcpu_exists(guests, current)
    &&& cur.host_hart_id < harts.len()
    &&& dedicated(harts[cur.host_hart_id as int]) ==> cur.guest_id_for_hart < harts[cur.host_hart_id as int].guests@.len()
    &&& !dedicated(harts[cur.host_hart_id as int]) ==> cur.guest_id_for_hart < guests.len()
        && guests[cur.guest_id_for_hart as int].vcpu_ptrs@.len() > 0
}

/// Whether a switch can go on from the vCPU `current` ([`switch_allowed`]).
pub fn can_switch(guests: &Vec<Guest>, harts: &Vec<Hart>, current: VcpuRef) -> (r: bool)
    ensures
        r == switch_allowed(guests@, harts@, current),
{
    if current.guest >= guests.len() || current.slot >= guests[current.guest].vcpus.len() {
        return false;
    }
    match &guests[current.guest].vcpus[current.slot] {
        None => false,
        Some(v) => {
            let h = v.host_hart_id;
            let gfh = v.guest_id_for_hart;
            if h >= harts.len() {
                return false;
            }
            if is_hart_dedicated(harts, h) {
                gfh < harts[h].guests.len()
            } else {
                gfh < guests.len() && guests[gfh].vcpu_ptrs.len() > 0
            }
        },
    }
}

impl Vcpu {
    /// Switches the hart that runs vCPU `current` to the next guest: the vCPU
    /// is given back (to its guest's pool, or its assigned place is freed),
    /// the guests are tried round-robin from the one after the current for
    /// one with room for the hart, and the chosen vCPU is prepared with the
    /// hart's id, its stack and a timer deadline `TIMER_OFFSET` after `time`.
    /// Returns the vCPU to run.
    pub fn run_next_guest(
        guests: &mut Vec<Guest>,
        harts: &Vec<Hart>,
        current: VcpuRef,
        time: u64,
    ) -> (r: Result<VcpuRef, SchedulingError>)
        requires
            vcpu_exists(old(guests)@, current),
            harts_consistent(old(guests)@, harts@),
            pools_ready(old(guests)@),
            time <= u64::MAX - TIMER_OFFSET,
            switch_allowed(old(guests)@, harts@, current),
        ensures
            next_guest_outcome(old(guests)@, final(guests)@, harts@, current, time, r),
    {
        // Save these values before releasing this vcpu
        // to other harts to prevent data races.
        let cur = match &guests[current.guest].vcpus[current.slot] {
            Some(v) => (v.host_sp, v.guest_id_for_hart, v.host_hart_id),
            None => (0, 0, 0),
        };
        let host_sp = cur.0;
        let guest_id_for_hart = cur.1;
        let host_hart_id = cur.2;
        let deadline = time + TIMER_OFFSET;
        let ghost before = guests@;
        let is_assigned = is_hart_dedicated(harts, host_hart_id);
        if is_assigned {
            let hart = &harts[host_hart_id];
            let _slots = hart.guests.len();
            let current_guest = match hart.guests[guest_id_for_hart] {
                Some(g) => g,
                None => {
                    return Err(SchedulingError::EmptyAssignmentSlot);
                },
            };
            release_assigned_place(guests, current_guest);
            let ghost mid = guests@;
            let res = claim_assigned_in_round(guests, hart, guest_id_for_hart + 1);
            let ghost mid2 = guests@;
            let out = match res {
                Err(()) => Err(SchedulingError::EmptyAssignmentSlot),
                Ok(None) => Err(SchedulingError::NoGuestReady),
                Ok(Some((None, _))) => Err(SchedulingError::NullVcpu),
                Ok(Some((Some(nv), k))) => prepare_vcpu(guests, nv, k, host_hart_id, host_sp, deadline),
            };
            proof {
                assert(released_assigned_place(before, mid, current_guest as int));
                assert(assigned_round_outcome(mid, mid2, *hart, guest_id_for_hart + 1, res));
            }
            out
        } else {
            let _count = guests.len();
            release_vcpu(guests, guest_id_for_hart, current);
            let ghost mid = guests@;
            proof {
                lemma_release_keeps_pools_ready(before, mid, guest_id_for_hart as int, current);
            }
            let res = claim_vcpu_in_round(guests, guest_id_for_hart + 1);
            let ghost mid2 = guests@;
            let out = match res {
                None => Err(SchedulingError::NoGuestReady),
                Some((nv, gi)) => prepare_vcpu(guests, nv, gi, host_hart_id, host_sp, deadline),
            };
            proof {
                assert(released_vcpu(before, mid, guest_id_for_hart as int, current));
                assert(vcpu_round_outcome(mid, mid2, guest_id_for_hart + 1, res));
            }
            out
        }
    }
}

/// Every vCPU that waits in a pool exists.
pub open spec fn pools_name_vcpus(guests: Seq<Guest>) -> bool {
    forall|i: int, k: int|
        0 <= i < guests.len() && 0 <= k < guests[i].vcpu_ptrs@.len() && #[trigger] guests[i].vcpu_ptrs@[k] is Some
            ==> vcpu_exists(guests, guests[i].vcpu_ptrs@[k]->0)
}

/// Every vCPU slot that holds a vCPU in `before` holds one in `after`.
pub open spec fn vcpus_stay(before: Seq<Guest>, after: Seq<Guest>) -> bool {
    &&& after.len() == before.len()
    &&& forall|i: int| 0 <= i < before.len() ==> #[trigger] after[i].vcpus@.len() == before[i].vcpus@.len()
    &&& forall|i: int, k: int|
        0 <= i < before.len() && 0 <= k < before[i].vcpus@.len() && #[trigger] before[i].vcpus@[k] is Some
            ==> after[i].vcpus@[k] is Some
}

/// Every vCPU that waits in a pool of `after` waited in the same guest's pool
/// of `before`, or is `extra`.
pub open spec fn pools_from(before: Seq<Guest>, after: Seq<Guest>, extra: Option<VcpuRef>) -> bool {
    forall|i: int, k: int|
        0 <= i < after.len() && 0 <= k < after[i].vcpu_ptrs@.len() && #[trigger] after[i].vcpu_ptrs@[k] is Some
            ==> after[i].vcpu_ptrs@[k] == extra || exists|k2: int|
                0 <= k2 < before[i].vcpu_ptrs@.len() && #[trigger] before[i].vcpu_ptrs@[k2] == after[i].vcpu_ptrs@[k]
}

pub(crate) proof fn lemma_naming_kept(before: Seq<Guest>, after: Seq<Guest>, extra: Option<VcpuRef>)
    requires
        pools_name_vcpus(before),
        vcpus_stay(before, after),
        pools_from(before, after, extra),
        extra matches Some(e) ==> vcpu_exists(before, e),
    ensures
        pools_name_vcpus(after),
{
    assert forall|i: int, k: int|
        0 <= i < after.len() && 0 <= k < after[i].vcpu_ptrs@.len() && #[trigger] after[i].vcpu_ptrs@[k] is Some
            implies vcpu_exists(after, after[i].vcpu_ptrs@[k]->0) by {
        let v = after[i].vcpu_ptrs@[k]->0;
        if after[i].vcpu_ptrs@[k] != extra {
            let k2 = choose|k2: int|
                0 <= k2 < before[i].vcpu_ptrs@.len() && #[trigger] before[i].vcpu_ptrs@[k2] == after[i].vcpu_ptrs@[k];
            assert(before[i].vcpu_ptrs@[k2] is Some);
        }
        assert(vcpu_exists(before, v));
        assert(before[v.guest as int].vcpus@[v.slot as int] is Some);
        assert(after[v.guest as int].vcpus@.len() == before[v.guest as int].vcpus@.len());
    }
}

/// Only guest `gi` changed, keeping its vCPUs and its pool.
proof fn lemma_same_pools_naming(before: Seq<Guest>, after: Seq<Guest>, gi: int)
    requires
        pools_name_vcpus(before),
        released_assigned_place(before, after, gi),
    ensures
        pools_name_vcpus(after),
{
    assert forall|i: int| 0 <= i < before.len() implies #[trigger] after[i].vcpus@ == before[i].vcpus@
        && after[i].vcpu_ptrs@ == before[i].vcpu_ptrs@ by {
        if i != gi {
            assert(after[i] == before[i]);
        }
    }
    assert forall|i: int, k: int|
        0 <= i < after.len() && 0 <= k < after[i].vcpu_ptrs@.len() && #[trigger] after[i].vcpu_ptrs@[k] is Some
            implies after[i].vcpu_ptrs@[k] == None::<VcpuRef> || exists|k2: int|
                0 <= k2 < before[i].vcpu_ptrs@.len() && #[trigger] before[i].vcpu_ptrs@[k2] == after[i].vcpu_ptrs@[k] by {
        assert(before[i].vcpu_ptrs@[k] == after[i].vcpu_ptrs@[k]);
    }
    lemma_naming_kept(before, after, None);
}

/// A round over a dedicated hart's guests changes no pool and no vCPU.
proof fn lemma_assigned_round_naming(
    before: Seq<Guest>,
    after: Seq<Guest>,
    hart: Hart,
    next: int,
    r: Result<Option<(Option<VcpuRef>, usize)>, ()>,
)
    requires
        pools_name_vcpus(before),
        assigned_round_outcome(before, after, hart, next, r),
    ensures
        pools_name_vcpus(after),
{
    let n = hart.guests@.len() as int;
    let s = round_start(next, n);
    match first_assigned_room(before, hart.guests@, s, n, 0) {
        Ok(Some(k)) => {
            let a = attempt_index(s, k, n);
            let gi = hart.guests@[a]->0 as int;
            assert forall|i: int| 0 <= i < before.len() implies #[trigger] after[i].vcpus@ == before[i].vcpus@
                && after[i].vcpu_ptrs@ == before[i].vcpu_ptrs@ by {
                if i != gi {
                    assert(after[i] == before[i]);
                }
            }
            assert forall|i: int, k: int|
                0 <= i < after.len() && 0 <= k < after[i].vcpu_ptrs@.len() && #[trigger] after[i].vcpu_ptrs@[k] is Some
                    implies after[i].vcpu_ptrs@[k] == None::<VcpuRef> || exists|k2: int|
                        0 <= k2 < before[i].vcpu_ptrs@.len() && #[trigger] before[i].vcpu_ptrs@[k2] == after[i].vcpu_ptrs@[k] by {
                assert(before[i].vcpu_ptrs@[k] == after[i].vcpu_ptrs@[k]);
            }
            lemma_naming_kept(before, after, None);
        },
        _ => {},
    }
}

/// Giving `v` back to guest `gi` puts `v` in its pool and keeps the rest.
proof fn lemma_release_naming(before: Seq<Guest>, after: Seq<Guest>, gi: int, v: VcpuRef)
    requires
        released_vcpu(before, after, gi, v),
    ensures
        vcpus_stay(before, after),
        pools_from(before, after, Some(v)),
{
    assert forall|i: int| 0 <= i < before.len() implies #[trigger] after[i].vcpus@ == before[i].vcpus@ by {
        if i != gi {
            assert(after[i] == before[i]);
        }
    }
    let p = before[gi].vcpu_ptrs@;
    assert forall|i: int, k: int|
        0 <= i < after.len() && 0 <= k < after[i].vcpu_ptrs@.len() && #[trigger] after[i].vcpu_ptrs@[k] is Some
            implies after[i].vcpu_ptrs@[k] == Some(v) || exists|k2: int|
                0 <= k2 < before[i].vcpu_ptrs@.len() && #[trigger] before[i].vcpu_ptrs@[k2] == after[i].vcpu_ptrs@[k] by {
        if i != gi {
            assert(after[i] == before[i]);
            assert(before[i].vcpu_ptrs@[k] == after[i].vcpu_ptrs@[k]);
        } else if exists|j: int| 0 <= j < p.len() && #[trigger] p[j] is None {
            crate::guest::lemma_first_free_slot_basic(p);
            let f = crate::guest::first_free_slot(p);
            if k != f {
                assert(before[i].vcpu_ptrs@[k] == after[i].vcpu_ptrs@[k]);
            }
        } else {
            assert(before[i].vcpu_ptrs@[k] == after[i].vcpu_ptrs@[k]);
        }
    }
}

/// A round over the guests takes the first vCPU of one pool, if any.
proof fn lemma_round_naming(before: Seq<Guest>, after: Seq<Guest>, next: int, r: Option<(VcpuRef, usize)>)
    requires
        pools_name_vcpus(before),
        pools_ready(before),
        vcpu_round_outcome(before, after, next, r),
    ensures
        pools_name_vcpus(after),
{
    let n = before.len() as int;
    let s = round_start(next, n);
    match first_room(before, s, n, 0) {
        Some(k) => {
            let gi = attempt_index(s, k, n);
            assert forall|i: int| 0 <= i < before.len() implies #[trigger] after[i].vcpus@ == before[i].vcpus@ by {
                if i != gi {
                    assert(after[i] == before[i]);
                }
            }
            assert forall|i: int, m: int|
                0 <= i < after.len() && 0 <= m < after[i].vcpu_ptrs@.len() && #[trigger] after[i].vcpu_ptrs@[m] is Some
                    implies after[i].vcpu_ptrs@[m] == None::<VcpuRef> || exists|k2: int|
                        0 <= k2 < before[i].vcpu_ptrs@.len() && #[trigger] before[i].vcpu_ptrs@[k2] == after[i].vcpu_ptrs@[m] by {
                if i != gi {
                    assert(after[i] == before[i]);
                    assert(before[i].vcpu_ptrs@[m] == after[i].vcpu_ptrs@[m]);
                } else {
                    let q = before[i].vcpu_ptrs@;
                    crate::guest::lemma_first_room_has_room(before, s, n, 0);
                    assert(room_for_hart(before[gi]));
                    assert(q.len() > 0);
                    assert(after[i].vcpu_ptrs@ == pool_after_take(q));
                    if m == q.len() - 1 {
                        assert(pool_after_take(q)[m] == None::<VcpuRef>);
                    }
                    assert(m + 1 < q.len());
                    assert(q[m + 1] == after[i].vcpu_ptrs@[m]);
                }
            }
            lemma_naming_kept(before, after, None);
        },
        None => {},
    }
}

/// Making a vCPU ready keeps every vCPU slot filled and every pool.
proof fn lemma_switch_finished_keeps_naming(
    before: Seq<Guest>,
    after: Seq<Guest>,
    v: VcpuRef,
    slot: usize,
    hart_id: usize,
    sp: u64,
    deadline: u64,
    r: Result<VcpuRef, SchedulingError>,
)
    requires
        pools_name_vcpus(before),
        switch_finished(before, after, v, slot, hart_id, sp, deadline, r),
    ensures
        pools_name_vcpus(after),
{
    if vcpu_exists(before, v) {
        assert forall|i: int| 0 <= i < before.len() implies #[trigger] after[i].vcpus@.len() == before[i].vcpus@.len()
            && after[i].vcpu_ptrs@ == before[i].vcpu_ptrs@ by {
            if i != v.guest {
                assert(after[i] == before[i]);
            }
        }
        assert forall|i: int, k: int|
            0 <= i < before.len() && 0 <= k < before[i].vcpus@.len() && #[trigger] before[i].vcpus@[k] is Some
                implies after[i].vcpus@[k] is Some by {
            if i != v.guest {
                assert(after[i] == before[i]);
            }
        }
        assert forall|i: int, k: int|
            0 <= i < after.len() && 0 <= k < after[i].vcpu_ptrs@.len() && #[trigger] after[i].vcpu_ptrs@[k] is Some
                implies after[i].vcpu_ptrs@[k] == None::<VcpuRef> || exists|k2: int|
                    0 <= k2 < before[i].vcpu_ptrs@.len() && #[trigger] before[i].vcpu_ptrs@[k2] == after[i].vcpu_ptrs@[k] by {
            assert(before[i].vcpu_ptrs@[k] == after[i].vcpu_ptrs@[k]);
        }
        lemma_naming_kept(before, after, None);
    }
}

/// A switch of a hart to its next guest keeps every vCPU that waits in a
/// pool an existing one: the vCPU given back exists, vCPUs are only taken
/// from the pools or moved within one, and no vCPU slot is emptied.
pub proof fn lemma_switch_keeps_pools_naming(
    before: Seq<Guest>,
    after: Seq<Guest>,
    harts: Seq<Hart>,
    current: VcpuRef,
    time: u64,
    r: Result<VcpuRef, SchedulingError>,
)
    requires
        next_guest_outcome(before, after, harts, current, time, r),
        vcpu_exists(before, current),
        pools_name_vcpus(before),
        pools_ready(before),
        ({
            let cur = before[current.guest as int].vcpus@[current.slot as int]->0;
            !dedicated(harts[cur.host_hart_id as int]) ==> cur.guest_id_for_hart < before.len()
                && before[cur.guest_id_for_hart as int].vcpu_ptrs@.len() > 0
        }),
    ensures
        pools_name_vcpus(after),
{
    let cur = before[current.guest as int].vcpus@[current.slot as int]->0;
    let h = cur.host_hart_id;
    let gfh = cur.guest_id_for_hart;
    let deadline = (time + TIMER_OFFSET) as u64;
    if dedicated(harts[h as int]) {
        let hart = harts[h as int];
        match hart.guests@[gfh as int] {
            None => {},
            Some(gi) => {
                let (mid, mid2, res) = choose|mid: Seq<Guest>, mid2: Seq<Guest>, res: Result<Option<(Option<VcpuRef>, usize)>, ()>|
                    #![trigger released_assigned_place(before, mid, gi as int), assigned_round_outcome(mid, mid2, hart, gfh + 1, res)]
                    {
                        &&& released_assigned_place(before, mid, gi as int)
                        &&& assigned_round_outcome(mid, mid2, hart, gfh + 1, res)
                        &&& match res {
                            Err(()) => r == Err::<VcpuRef, SchedulingError>(SchedulingError::EmptyAssignmentSlot) && after == mid2,
                            Ok(None) => r == Err::<VcpuRef, SchedulingError>(SchedulingError::NoGuestReady) && after == mid2,
                            Ok(Some((None, _))) => r == Err::<VcpuRef, SchedulingError>(SchedulingError::NullVcpu) && after == mid2,
                            Ok(Some((Some(nv), k))) => switch_finished(mid2, after, nv, k, h, cur.host_sp, deadline, r),
                        }
                    };
                lemma_same_pools_naming(before, mid, gi as int);
                lemma_assigned_round_naming(mid, mid2, hart, gfh + 1, res);
                match res {
                    Ok(Some((Some(nv), k))) => lemma_switch_finished_keeps_naming(mid2, after, nv, k, h, cur.host_sp, deadline, r),
                    _ => {},
                }
            },
        }
    } else {
        let (mid, mid2, res) = choose|mid: Seq<Guest>, mid2: Seq<Guest>, res: Option<(VcpuRef, usize)>|
            #![trigger released_vcpu(before, mid, gfh as int, current), vcpu_round_outcome(mid, mid2, gfh + 1, res)]
            {
                &&& released_vcpu(before, mid, gfh as int, current)
                &&& vcpu_round_outcome(mid, mid2, gfh + 1, res)
                &&& match res {
                    None => r == Err::<VcpuRef, SchedulingError>(SchedulingError::NoGuestReady) && after == mid2,
                    Some((nv, gi)) => switch_finished(mid2, after, nv, gi, h, cur.host_sp, deadline, r),
                }
            };
        lemma_release_naming(before, mid, gfh as int, current);
        lemma_naming_kept(before, mid, Some(current));
        lemma_release_keeps_pools_ready(before, mid, gfh as int, current);
        lemma_round_naming(mid, mid2, gfh + 1, res);
        match res {
            Some((nv, gi)) => lemma_switch_finished_keeps_naming(mid2, after, nv, gi, h, cur.host_sp, deadline, r),
            None => {},
        }
    }
}

/// A round that reaches guest `i` with room finds a guest.
proof fn lemma_round_reaches(gs: Seq<Guest>, s: int, n: int, k: int, kk: int)
    requires
        0 <= k <= kk < n,
        room_for_hart(gs[attempt_index(s, kk, n)]),
    ensures
        first_room(gs, s, n, k) is Some,
    decreases kk - k,
{
    if k < kk && !room_for_hart(gs[attempt_index(s, k, n)]) {
        lemma_round_reaches(gs, s, n, k + 1, kk);
    }
}

/// A hart that is not dedicated always finds a vCPU to run next when every
/// vCPU waiting in a pool exists and its current guest counts it among the
/// harts that run it: that guest has room again once the hart leaves it, and
/// the round over the guests reaches it at the latest.
pub proof fn lemma_shared_hart_finds_vcpu(
    before: Seq<Guest>,
    after: Seq<Guest>,
    harts: Seq<Hart>,
    current: VcpuRef,
    time: u64,
    r: Result<VcpuRef, SchedulingError>,
)
    requires
        next_guest_outcome(before, after, harts, current, time, r),
        vcpu_exists(before, current),
        pools_ready(before),
        pools_name_vcpus(before),
        ({
            let cur = before[current.guest as int].vcpus@[current.slot as int]->0;
            let gfh = cur.guest_id_for_hart as int;
            &&& cur.host_hart_id < harts.len()
            &&& !dedicated(harts[cur.host_hart_id as int])
            &&& gfh < before.len()
            &&& before[gfh].vcpu_ptrs@.len() > 0
            &&& 0 < before[gfh].active_hart_count <= before[gfh].hart_capacity
        }),
    ensures
        r is Ok,
{
    let cur = before[current.guest as int].vcpus@[current.slot as int]->0;
    let gfh = cur.guest_id_for_hart;
    let (mid, mid2, res) = choose|mid: Seq<Guest>, mid2: Seq<Guest>, res: Option<(VcpuRef, usize)>|
        #![trigger released_vcpu(before, mid, gfh as int, current), vcpu_round_outcome(mid, mid2, gfh + 1, res)]
        {
            &&& released_vcpu(before, mid, gfh as int, current)
            &&& vcpu_round_outcome(mid, mid2, gfh + 1, res)
            &&& match res {
                None => r == Err::<VcpuRef, SchedulingError>(SchedulingError::NoGuestReady) && after == mid2,
                Some((nv, gi)) => switch_finished(mid2, after, nv, gi, cur.host_hart_id, cur.host_sp, (time + TIMER_OFFSET) as u64, r),
            }
        };
    lemma_release_keeps_pools_ready(before, mid, gfh as int, current);
    let n = mid.len() as int;
    let s = round_start(gfh + 1, n);
    assert(room_for_hart(mid[gfh as int]));
    let kk = if gfh >= s { gfh - s } else { gfh - s + n };
    assert(attempt_index(s, kk, n) == gfh) by (nonlinear_arith)
        requires
            0 <= s < n,
            0 <= gfh < n,
            kk == (if gfh >= s { gfh - s } else { gfh - s + n }),
    {
        if gfh >= s {
            assert((s + kk) % n == gfh);
        } else {
            assert(s + kk == gfh + n);
        }
    }
    lemma_round_reaches(mid, s, n, 0, kk);
    let k = first_room(mid, s, n, 0)->0;
    let gi = attempt_index(s, k, n);
    crate::guest::lemma_first_room_has_room(mid, s, n, 0);
    assert(0 <= gi < n) by (nonlinear_arith)
        requires
            0 <= s,
            0 <= k,
            n > 0,
            gi == (s + k) % n,
    ;
    let nv = mid[gi].vcpu_ptrs@[0]->0;
    assert(mid[gi].vcpu_ptrs@[0] is Some);
    if gi == gfh {
        let p = before[gfh as int].vcpu_ptrs@;
        if exists|i: int| 0 <= i < p.len() && #[trigger] p[i] is None {
            crate::guest::lemma_first_free_slot_basic(p);
            let f = crate::guest::first_free_slot(p);
            assert(mid[gi].vcpu_ptrs@ == p.update(f, Some(current)));
            if f != 0 {
                assert(p[0] is Some);
                assert(nv == p[0]->0);
                assert(before[gi].vcpu_ptrs@[0] is Some);
                assert(vcpu_exists(before, nv));
            } else {
                assert(nv == current);
            }
        } else {
            assert(p[0] is Some);
            assert(nv == p[0]->0);
            assert(before[gi].vcpu_ptrs@[0] is Some);
            assert(vcpu_exists(before, nv));
        }
    } else {
        assert(mid[gi] == before[gi]);
        assert(before[gi].vcpu_ptrs@[0] is Some);
        assert(vcpu_exists(before, nv));
    }
    assert(before[nv.guest as int].vcpus@ == mid2[nv.guest as int].vcpus@) by {
        if nv.guest != gfh {
            assert(mid[nv.guest as int] == before[nv.guest as int]);
        }
        if nv.guest != gi {
            assert(mid2[nv.guest as int] == mid[nv.guest as int]);
        }
    }
}

proof fn lemma_stack_order()
    ensures
        page_round_up(VCPU_STACK_SIZE as int) == VCPU_STACK_SIZE,
        request_order(VCPU_STACK_SIZE as int) == 19,
        block_size(19) == VCPU_STACK_SIZE,
{
    vstd::arithmetic::power2::lemma2_to64();
    reveal_with_fuel(crate::allocator::order_from, 21);
}

/// The initial status registers hold exactly the documented fields.
pub proof fn lemma_initial_status_values()
    ensures
        initial_hstatus() == 0x2_0000_0080,
        initial_vsstatus() == 0x2200,
        initial_sstatus() == 0x2300,
{
    assert(HSTATUS_SPV | HSTATUS_VSXL_64 == 0x2_0000_0080) by (bit_vector);
    assert(SSTATUS_VS_INITIAL | SSTATUS_FS_INITIAL == 0x2200) by (bit_vector);
    assert(SSTATUS_SPP | SSTATUS_VS_INITIAL | SSTATUS_FS_INITIAL == 0x2300) by (bit_vector);
}

} // verus!
