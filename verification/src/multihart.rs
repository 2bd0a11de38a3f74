//! The physical harts: which guests each one is dedicated to, their set-up,
//! and how each finds its first guest.

use crate::allocator::{
    alloc_pages, block_bytes, block_size, blocks_fit, first_nonempty, Heap, FREE_LIST_LENGTH,
};
use crate::guest::{
    claim_assigned_hart_slot_if_available, claim_vcpu_for_hart_if_available, first_room,
    harts_consistent, pool_ok, pools_ready, room_for_assigned_hart, room_for_hart,
    took_assigned_place, took_vcpu,
    Guest, SchedulingError, VcpuRef,
};
use crate::memory::{byte_of, Memory};
use crate::vcpu::{pools_name_vcpus, Vcpu, TIMER_OFFSET};
use vstd::prelude::*;

verus! {

/// A physical hart.
#[derive(Debug)]
pub struct Hart {
    /// The vCPUs of the guests this hart is dedicated to (`None` stands for a
    /// null pointer).
    pub dedicated_to: Vec<Option<VcpuRef>>,
    /// The guests this hart is dedicated to, by index in the guest list.
    pub guests: Vec<Option<usize>>,
}

/// The hart is dedicated to some guest: its first `dedicated_to` entry is set.
pub open spec fn dedicated(h: Hart) -> bool {
    h.dedicated_to@.len() > 0 && h.dedicated_to@[0] is Some
}

/// Whether hart `hart_id` is dedicated to a guest.
pub fn is_hart_dedicated(harts: &Vec<Hart>, hart_id: usize) -> (r: bool)
    requires
        hart_id < harts@.len(),
    ensures
        r == dedicated(harts@[hart_id as int]),
{
    // Determine if a hart is dedicated. The dedicated_to
    // field must contain at least one non-null element.
    let dedicated_to = &harts[hart_id].dedicated_to;
    dedicated_to.len() > 0 && dedicated_to[0].is_some()
}

/// The hypervisor interrupt-enable and configuration registers of a hart.
#[derive(Debug, Clone, Copy, PartialEq, Eq)]
pub struct HartCsrs {
    pub hie: u64,
    pub vsie: u64,
    pub henvcfg: u64,
}

/// `hie.VSTIE`: VS-level timer interrupts enabled.
pub const HIE_VSTIE: u64 = 1 << 6;

/// `vsie.STIE`: the guest's supervisor timer interrupts enabled.
pub const VSIE_STIE: u64 = 1 << 6;

/// `henvcfg.STCE`: the `stimecmp`/`vstimecmp` comparators enabled.
pub const HENVCFG_STCE: u64 = 1 << 63;

/// The registers after a hart's set-up: the guest timer interrupt enabled in
/// `hie` and `vsie`, the time comparators enabled in `henvcfg`; every other
/// bit kept.
pub fn hart_configure(current: HartCsrs) -> (r: HartCsrs)
    ensures
        r == (HartCsrs {
            hie: current.hie | HIE_VSTIE,
            vsie: current.vsie | VSIE_STIE,
            henvcfg: current.henvcfg | HENVCFG_STCE,
        }),
{
    // Set the VS Timer Interrupt Enable (VSTIE) bit in hie to allow timer interrupts in VS mode.
    let hie = current.hie | HIE_VSTIE;
    // Set the Supervisor Timer Interrupt Enable (STIE) bit in vsie to handle guest timer interrupts.
    let vsie = current.vsie | VSIE_STIE;
    // Set the STimecmp Enable (STCE) bit in henvcfg to enable S/VS mode time comparators.
    let henvcfg = current.henvcfg | HENVCFG_STCE;
    HartCsrs { hie, vsie, henvcfg }
}

/// The set-up sets its three bits and keeps every other one.
pub proof fn lemma_hart_configure_bits(c: HartCsrs)
    ensures
        (c.hie | HIE_VSTIE) & HIE_VSTIE != 0,
        (c.vsie | VSIE_STIE) & VSIE_STIE != 0,
        (c.henvcfg | HENVCFG_STCE) & HENVCFG_STCE != 0,
        (c.hie | HIE_VSTIE) & !HIE_VSTIE == c.hie & !HIE_VSTIE,
        (c.vsie | VSIE_STIE) & !VSIE_STIE == c.vsie & !VSIE_STIE,
        (c.henvcfg | HENVCFG_STCE) & !HENVCFG_STCE == c.henvcfg & !HENVCFG_STCE,
{
    let a = c.hie;
    let b = c.vsie;
    let d = c.henvcfg;
    assert((a | (1u64 << 6)) & (1u64 << 6) != 0) by (bit_vector);
    assert((b | (1u64 << 6)) & (1u64 << 6) != 0) by (bit_vector);
    assert((d | (1u64 << 63)) & (1u64 << 63) != 0) by (bit_vector);
    assert((a | (1u64 << 6)) & !(1u64 << 6) == a & !(1u64 << 6)) by (bit_vector);
    assert((b | (1u64 << 6)) & !(1u64 << 6) == b & !(1u64 << 6)) by (bit_vector);
    assert((d | (1u64 << 63)) & !(1u64 << 63) == d & !(1u64 << 63)) by (bit_vector);
    assert(HIE_VSTIE == 1u64 << 6 && VSIE_STIE == 1u64 << 6 && HENVCFG_STCE == 1u64 << 63) by (bit_vector);
}

/// The vCPU that a hart runs first and the timer deadline it starts with.
#[derive(Debug, Clone, Copy, PartialEq, Eq)]
pub struct FirstRun {
    pub vcpu: VcpuRef,
    pub deadline: u64,
}

/// The first slot, from `k` on, of a hart's guest list (`slots`) whose guest
/// has room for the hart; the search stops at the first empty slot.
pub open spec fn first_dedicated_room(guests: Seq<Guest>, slots: Seq<Option<usize>>, k: int) -> Option<int>
    decreases slots.len() - k,
{
    if k >= slots.len() {
        None
    } else {
        match slots[k] {
            None => None,
            Some(g) => if room_for_assigned_hart(guests[g as int]) {
                Some(k)
            } else {
                first_dedicated_room(guests, slots, k + 1)
            },
        }
    }
}

/// `after` is `before` with the vCPU `v` marked as run by hart `hart_id` as
/// its `slot`-th guest.
pub open spec fn first_run_marked(before: Seq<Guest>, after: Seq<Guest>, v: VcpuRef, hart_id: usize, slot: usize) -> bool {
    let old_v = before[v.guest as int].vcpus@[v.slot as int]->0;
    &&& after.len() == before.len()
    &&& v.guest < before.len()
    &&& v.slot < before[v.guest as int].vcpus@.len()
    &&& before[v.guest as int].vcpus@[v.slot as int] is Some
    &&& after[v.guest as int].vcpus@ == before[v.guest as int].vcpus@.update(
        v.slot as int,
        Some(Vcpu { host_hart_id: hart_id, guest_id_for_hart: slot, ..old_v }),
    )
    &&& crate::guest::same_guest_but_claims(
        Guest { vcpus: after[v.guest as int].vcpus, ..before[v.guest as int] },
        after[v.guest as int],
    )
    &&& after[v.guest as int].vcpu_ptrs@ == before[v.guest as int].vcpu_ptrs@
    &&& after[v.guest as int].active_hart_count == before[v.guest as int].active_hart_count
    &&& after[v.guest as int].active_assigned_hart_count == before[v.guest as int].active_assigned_hart_count
    &&& forall|i: int| 0 <= i < before.len() && i != v.guest ==> #[trigger] after[i] == before[i]
}

/// The last step of a first run: the vCPU `v` is marked, or the run fails
/// when `v` names no vCPU.
pub open spec fn first_run_finished(
    before: Seq<Guest>,
    after: Seq<Guest>,
    v: VcpuRef,
    hart_id: usize,
    slot: usize,
    time: u64,
    r: Result<FirstRun, SchedulingError>,
) -> bool {
    if v.guest < before.len() && v.slot < before[v.guest as int].vcpus@.len()
        && before[v.guest as int].vcpus@[v.slot as int] is Some {
        &&& r == Ok::<FirstRun, SchedulingError>(FirstRun { vcpu: v, deadline: (time + TIMER_OFFSET) as u64 })
        &&& first_run_marked(before, after, v, hart_id, slot)
    } else {
        r == Err::<FirstRun, SchedulingError>(SchedulingError::MissingVcpu) && after == before
    }
}

/// Marks vCPU `v` as run by hart `hart_id` as its `slot`-th guest and
/// returns its first run.
fn start_first_run(guests: &mut Vec<Guest>, v: VcpuRef, hart_id: usize, slot: usize, time: u64) -> (r: Result<FirstRun, SchedulingError>)
    requires
        time <= u64::MAX - TIMER_OFFSET,
    ensures
        first_run_finished(old(guests)@, final(guests)@, v, hart_id, slot, time, r),
{
    if v.guest >= guests.len() || v.slot >= guests[v.guest].vcpus.len() {
        return Err(SchedulingError::MissingVcpu);
    }
    if guests[v.guest].vcpus[v.slot].is_none() {
        return Err(SchedulingError::MissingVcpu);
    }
    let mut taken: Option<Vcpu> = None;
    std::mem::swap(&mut guests[v.guest].vcpus[v.slot], &mut taken);
    match taken {
        None => Err(SchedulingError::MissingVcpu),
        Some(mut vcpu) => {
            let deadline = vcpu.very_fisrt_run(hart_id, slot, time);
            let mut filled = Some(vcpu);
            std::mem::swap(&mut guests[v.guest].vcpus[v.slot], &mut filled);
            proof {
                assert(guests@[v.guest as int].vcpus@ =~= old(guests)@[v.guest as int].vcpus@.update(
                    v.slot as int,
                    Some(vcpu),
                ));
            }
            Ok(FirstRun { vcpu: v, deadline })
        },
    }
}

/// The outcome of hart `hart_id` looking for its first guest at `time`.
pub open spec fn first_job_outcome(
    before: Seq<Guest>,
    after: Seq<Guest>,
    harts: Seq<Hart>,
    hart_id: usize,
    time: u64,
    r: Result<FirstRun, SchedulingError>,
) -> bool {
    if dedicated(harts[hart_id as int]) {
        let hart = harts[hart_id as int];
        match first_dedicated_room(before, hart.guests@, 0) {
            None => r == Err::<FirstRun, SchedulingError>(SchedulingError::NoJob) && after == before,
            Some(k) => {
                let gi = hart.guests@[k]->0 as int;
                exists|mid: Seq<Guest>| #![trigger took_assigned_place(before[gi], mid[gi])]
                {
                    &&& mid.len() == before.len()
                    &&& took_assigned_place(before[gi], mid[gi])
                    &&& (forall|i: int| 0 <= i < before.len() && i != gi ==> #[trigger] mid[i] == before[i])
                    &&& match hart.dedicated_to@[k] {
                        None => r == Err::<FirstRun, SchedulingError>(SchedulingError::NullVcpu) && after == mid,
                        Some(v) => first_run_finished(mid, after, v, hart_id, k as usize, time, r),
                    }
                }
            },
        }
    } else {
        let n = before.len() as int;
        match first_room(before, 0, n, 0) {
            None => r == Err::<FirstRun, SchedulingError>(SchedulingError::NoJob) && after == before,
            Some(k) => exists|mid: Seq<Guest>| #![trigger took_vcpu(before[k], mid[k])]
            {
                &&& mid.len() == before.len()
                &&& took_vcpu(before[k], mid[k])
                &&& (forall|i: int| 0 <= i < n && i != k ==> #[trigger] mid[i] == before[i])
                &&& first_run_finished(mid, after, before[k].vcpu_ptrs@[0]->0, hart_id, k as usize, time, r)
            },
        }
    }
}

/// Only guest `gi` changed, keeping its vCPUs, and every vCPU in its pool
/// was in its pool before: the pools keep naming existing vCPUs.
proof fn lemma_one_guest_naming(before: Seq<Guest>, after: Seq<Guest>, gi: int)
    requires
        pools_name_vcpus(before),
        0 <= gi < before.len(),
        after.len() == before.len(),
        forall|i: int| 0 <= i < before.len() && i != gi ==> #[trigger] after[i] == before[i],
        after[gi].vcpus@ == before[gi].vcpus@,
        forall|k: int|
            0 <= k < after[gi].vcpu_ptrs@.len() && #[trigger] after[gi].vcpu_ptrs@[k] is Some ==> exists|k2: int|
                0 <= k2 < before[gi].vcpu_ptrs@.len() && #[trigger] before[gi].vcpu_ptrs@[k2] == after[gi].vcpu_ptrs@[k],
    ensures
        pools_name_vcpus(after),
{
    assert forall|i: int| 0 <= i < before.len() implies #[trigger] after[i].vcpus@ == before[i].vcpus@ by {
        if i != gi {
            assert(after[i] == before[i]);
        }
    }
    assert forall|i: int, k: int|
        0 <= i < after.len() && 0 <= k < after[i].vcpu_ptrs@.len() && #[trigger] after[i].vcpu_ptrs@[k] is Some
            implies after[i].vcpu_ptrs@[k] == None::<VcpuRef> || exists|k2: int|
                0 <= k2 < before[i].vcpu_ptrs@.len() && #[trigger] before[i].vcpu_ptrs@[k2] == after[i].vcpu_ptrs@[k] by {
        if i != gi {
            assert(after[i] == before[i]);
            assert(before[i].vcpu_ptrs@[k] == after[i].vcpu_ptrs@[k]);
        }
    }
    crate::vcpu::lemma_naming_kept(before, after, None);
}

/// Finding a hart's first guest keeps every vCPU that waits in a pool an
/// existing one.
pub proof fn lemma_first_job_keeps_pools_naming(
    before: Seq<Guest>,
    after: Seq<Guest>,
    harts: Seq<Hart>,
    hart_id: usize,
    time: u64,
    r: Result<FirstRun, SchedulingError>,
)
    requires
        hart_id < harts.len(),
        first_job_outcome(before, after, harts, hart_id, time, r),
        harts_consistent(before, harts),
        pools_ready(before),
        pools_name_vcpus(before),
    ensures
        pools_name_vcpus(after),
{
    if dedicated(harts[hart_id as int]) {
        let hart = harts[hart_id as int];
        match first_dedicated_room(before, hart.guests@, 0) {
            None => {},
            Some(k) => {
                let gi = hart.guests@[k]->0 as int;
                lemma_first_dedicated_room_in(before, hart.guests@, 0);
                assert(harts[hart_id as int].dedicated_to@.len() == harts[hart_id as int].guests@.len());
                assert(hart.guests@[k] is Some);
                let mid = choose|mid: Seq<Guest>| #![trigger took_assigned_place(before[gi], mid[gi])]
                {
                    &&& mid.len() == before.len()
                    &&& took_assigned_place(before[gi], mid[gi])
                    &&& (forall|i: int| 0 <= i < before.len() && i != gi ==> #[trigger] mid[i] == before[i])
                    &&& match hart.dedicated_to@[k] {
                        None => r == Err::<FirstRun, SchedulingError>(SchedulingError::NullVcpu) && after == mid,
                        Some(v) => first_run_finished(mid, after, v, hart_id, k as usize, time, r),
                    }
                };
                assert forall|m: int| 0 <= m < mid[gi].vcpu_ptrs@.len() && #[trigger] mid[gi].vcpu_ptrs@[m] is Some implies exists|k2: int|
                    0 <= k2 < before[gi].vcpu_ptrs@.len() && #[trigger] before[gi].vcpu_ptrs@[k2] == mid[gi].vcpu_ptrs@[m] by {
                    assert(before[gi].vcpu_ptrs@[m] == mid[gi].vcpu_ptrs@[m]);
                }
                lemma_one_guest_naming(before, mid, gi);
                match hart.dedicated_to@[k] {
                    None => {},
                    Some(v) => lemma_first_run_naming(mid, after, v, hart_id, k as usize, time, r),
                }
            },
        }
    } else {
        let n = before.len() as int;
        match first_room(before, 0, n, 0) {
            None => {},
            Some(k) => {
                crate::guest::lemma_first_room_has_room(before, 0, n, 0);
                vstd::arithmetic::div_mod::lemma_small_mod(k as nat, n as nat);
                assert(crate::guest::attempt_index(0, k, n) == k);
                let mid = choose|mid: Seq<Guest>| #![trigger took_vcpu(before[k], mid[k])]
                {
                    &&& mid.len() == before.len()
                    &&& took_vcpu(before[k], mid[k])
                    &&& (forall|i: int| 0 <= i < n && i != k ==> #[trigger] mid[i] == before[i])
                    &&& first_run_finished(mid, after, before[k].vcpu_ptrs@[0]->0, hart_id, k as usize, time, r)
                };
                let q = before[k].vcpu_ptrs@;
                assert(room_for_hart(before[k]));
                assert(q.len() > 0);
                assert forall|m: int| 0 <= m < mid[k].vcpu_ptrs@.len() && #[trigger] mid[k].vcpu_ptrs@[m] is Some implies exists|k2: int|
                    0 <= k2 < before[k].vcpu_ptrs@.len() && #[trigger] before[k].vcpu_ptrs@[k2] == mid[k].vcpu_ptrs@[m] by {
                    if m == q.len() - 1 {
                        assert(crate::guest::pool_after_take(q)[m] == None::<VcpuRef>);
                    }
                    assert(q[m + 1] == mid[k].vcpu_ptrs@[m]);
                }
                lemma_one_guest_naming(before, mid, k);
                lemma_first_run_naming(mid, after, before[k].vcpu_ptrs@[0]->0, hart_id, k as usize, time, r);
            },
        }
    }
}

/// Marking a vCPU as run keeps every vCPU slot filled and every pool.
proof fn lemma_first_run_naming(
    before: Seq<Guest>,
    after: Seq<Guest>,
    v: VcpuRef,
    hart_id: usize,
    slot: usize,
    time: u64,
    r: Result<FirstRun, SchedulingError>,
)
    requires
        pools_name_vcpus(before),
        first_run_finished(before, after, v, hart_id, slot, time, r),
    ensures
        pools_name_vcpus(after),
{
    if v.guest < before.len() && v.slot < before[v.guest as int].vcpus@.len()
        && before[v.guest as int].vcpus@[v.slot as int] is Some {
        let g = v.guest as int;
        assert forall|i: int| 0 <= i < before.len() implies #[trigger] after[i].vcpus@.len() == before[i].vcpus@.len() by {
            if i != g {
                assert(after[i] == before[i]);
            }
        }
        assert forall|i: int, k: int|
            0 <= i < before.len() && 0 <= k < before[i].vcpus@.len() && #[trigger] before[i].vcpus@[k] is Some
                implies after[i].vcpus@[k] is Some by {
            if i != g {
                assert(after[i] == before[i]);
            }
        }
        assert forall|i: int, k: int|
            0 <= i < after.len() && 0 <= k < after[i].vcpu_ptrs@.len() && #[trigger] after[i].vcpu_ptrs@[k] is Some
                implies after[i].vcpu_ptrs@[k] == None::<VcpuRef> || exists|k2: int|
                    0 <= k2 < before[i].vcpu_ptrs@.len() && #[trigger] before[i].vcpu_ptrs@[k2] == after[i].vcpu_ptrs@[k] by {
            if i != g {
                assert(after[i] == before[i]);
            }
            assert(before[i].vcpu_ptrs@[k] == after[i].vcpu_ptrs@[k]);
        }
        crate::vcpu::lemma_naming_kept(before, after, None);
    }
}

/// Marking a vCPU as run, or failing to, keeps every guest's pool well formed.
proof fn lemma_first_run_keeps_pools(
    before: Seq<Guest>,
    after: Seq<Guest>,
    v: VcpuRef,
    hart_id: usize,
    slot: usize,
    time: u64,
    r: Result<FirstRun, SchedulingError>,
)
    requires
        first_run_finished(before, after, v, hart_id, slot, time, r),
        forall|i: int| 0 <= i < before.len() ==> #[trigger] pool_ok(before[i]),
    ensures
        forall|i: int| 0 <= i < after.len() ==> #[trigger] pool_ok(after[i]),
{
    assert forall|i: int| 0 <= i < after.len() implies #[trigger] pool_ok(after[i]) by {
        if first_run_marked(before, after, v, hart_id, slot) && i == v.guest {
            assert(pool_ok(before[i]));
        } else {
            assert(after[i] == before[i]);
        }
    }
}

/// A hart that finds its first guest keeps every guest's pool well formed.
pub proof fn lemma_first_job_keeps_pools(
    before: Seq<Guest>,
    after: Seq<Guest>,
    harts: Seq<Hart>,
    hart_id: usize,
    time: u64,
    r: Result<FirstRun, SchedulingError>,
)
    requires
        hart_id < harts.len(),
        first_job_outcome(before, after, harts, hart_id, time, r),
        harts_consistent(before, harts),
        forall|i: int| 0 <= i < before.len() ==> #[trigger] pool_ok(before[i]),
    ensures
        forall|i: int| 0 <= i < after.len() ==> #[trigger] pool_ok(after[i]),
{
    if dedicated(harts[hart_id as int]) {
        let hart = harts[hart_id as int];
        match first_dedicated_room(before, hart.guests@, 0) {
            None => {},
            Some(k) => {
                lemma_first_dedicated_room_in(before, hart.guests@, 0);
                let gi = hart.guests@[k]->0 as int;
                let mid = choose|mid: Seq<Guest>| #![trigger took_assigned_place(before[gi], mid[gi])]
                {
                    &&& mid.len() == before.len()
                    &&& took_assigned_place(before[gi], mid[gi])
                    &&& (forall|i: int| 0 <= i < before.len() && i != gi ==> #[trigger] mid[i] == before[i])
                    &&& match hart.dedicated_to@[k] {
                        None => r == Err::<FirstRun, SchedulingError>(SchedulingError::NullVcpu) && after == mid,
                        Some(v) => first_run_finished(mid, after, v, hart_id, k as usize, time, r),
                    }
                };
                assert forall|i: int| 0 <= i < mid.len() implies #[trigger] pool_ok(mid[i]) by {
                    if i == gi {
                        assert(pool_ok(before[i]));
                    } else {
                        assert(mid[i] == before[i]);
                    }
                }
                match hart.dedicated_to@[k] {
                    None => {},
                    Some(v) => {
                        lemma_first_run_keeps_pools(mid, after, v, hart_id, k as usize, time, r);
                    },
                }
            },
        }
    } else {
        let n = before.len() as int;
        match first_room(before, 0, n, 0) {
            None => {},
            Some(k) => {
                crate::guest::lemma_first_room_has_room(before, 0, n, 0);
                vstd::arithmetic::div_mod::lemma_small_mod(k as nat, n as nat);
                let mid = choose|mid: Seq<Guest>| #![trigger took_vcpu(before[k], mid[k])]
                {
                    &&& mid.len() == before.len()
                    &&& took_vcpu(before[k], mid[k])
                    &&& (forall|i: int| 0 <= i < n && i != k ==> #[trigger] mid[i] == before[i])
                    &&& first_run_finished(mid, after, before[k].vcpu_ptrs@[0]->0, hart_id, k as usize, time, r)
                };
                assert forall|i: int| 0 <= i < mid.len() implies #[trigger] pool_ok(mid[i]) by {
                    if i == k {
                        crate::guest::lemma_take_keeps_pool_ok(before[i], mid[i]);
                    } else {
                        assert(mid[i] == before[i]);
                    }
                }
                lemma_first_run_keeps_pools(mid, after, before[k].vcpu_ptrs@[0]->0, hart_id, k as usize, time, r);
            },
        }
    }
}

/// The slot that a dedicated hart's search stops at is one of its slots and
/// names a guest.
proof fn lemma_first_dedicated_room_in(guests: Seq<Guest>, slots: Seq<Option<usize>>, k: int)
    requires
        first_dedicated_room(guests, slots, k) is Some,
    ensures
        k <= first_dedicated_room(guests, slots, k)->0 < slots.len(),
        slots[first_dedicated_room(guests, slots, k)->0] is Some,
    decreases slots.len() - k,
{
    if k < slots.len() {
        match slots[k] {
            None => {},
            Some(g) => {
                if !room_for_assigned_hart(guests[g as int]) {
                    lemma_first_dedicated_room_in(guests, slots, k + 1);
                }
            },
        }
    }
}

/// Hart `hart_id` finds a guest with room for it, in the search that
/// [`jump_in_guest`] makes.
pub open spec fn job_available(guests: Seq<Guest>, harts: Seq<Hart>, hart_id: int) -> bool {
    if dedicated(harts[hart_id]) {
        first_dedicated_room(guests, harts[hart_id].guests@, 0) is Some
    } else {
        first_room(guests, 0, guests.len() as int, 0) is Some
    }
}

/// Whether hart `hart_id` finds a guest with room for it, without claiming
/// a place.
pub fn has_job(guests: &Vec<Guest>, harts: &Vec<Hart>, hart_id: usize) -> (r: bool)
    requires
        hart_id < harts@.len(),
        harts_consistent(guests@, harts@),
    ensures
        r == job_available(guests@, harts@, hart_id as int),
{
    if is_hart_dedicated(harts, hart_id) {
        let hart = &harts[hart_id];
        let n = hart.guests.len();
        let mut idx: usize = 0;
        while idx < n
            invariant
                n == hart.guests@.len(),
                *hart == harts@[hart_id as int],
                hart_id < harts@.len(),
                harts_consistent(guests@, harts@),
                dedicated(harts@[hart_id as int]),
                idx <= n,
                first_dedicated_room(guests@, hart.guests@, 0) == first_dedicated_room(guests@, hart.guests@, idx as int),
            decreases n - idx,
        {
            match hart.guests[idx] {
                Some(g) => {
                    proof {
                        assert(harts@[hart_id as int].dedicated_to@.len() == harts@[hart_id as int].guests@.len());
                        assert(harts@[hart_id as int].guests@[idx as int] is Some);
                        assert(g < guests@.len());
                    }
                    if guests[g].active_assigned_hart_count < guests[g].assigned_hart_capacity {
                        proof {
                            assert(room_for_assigned_hart(guests@[g as int]));
                            assert(first_dedicated_room(guests@, hart.guests@, idx as int) == Some(idx as int));
                        }
                        return true;
                    }
                },
                None => {
                    proof {
                        assert(first_dedicated_room(guests@, hart.guests@, idx as int) is None);
                    }
                    return false;
                },
            }
            idx = idx + 1;
        }
        false
    } else {
        let n = guests.len();
        let mut i: usize = 0;
        while i < n
            invariant
                n == guests@.len(),
                i <= n,
                hart_id < harts@.len(),
                !dedicated(harts@[hart_id as int]),
                first_room(guests@, 0, n as int, 0) == first_room(guests@, 0, n as int, i as int),
            decreases n - i,
        {
            proof {
                vstd::arithmetic::div_mod::lemma_small_mod(i as nat, n as nat);
                assert(crate::guest::attempt_index(0, i as int, n as int) == i);
            }
            if guests[i].active_hart_count < guests[i].hart_capacity {
                proof {
                    assert(room_for_hart(guests@[i as int]));
                    assert(first_room(guests@, 0, n as int, i as int) == Some(i as int));
                }
                return true;
            }
            i = i + 1;
        }
        false
    }
}

/// Finds the first guest of hart `hart_id` and prepares its vCPU, at `time`.
/// A hart dedicated to guests tries them in the order of its list, stopping
/// at the first empty slot; another hart tries every guest in order.  The
/// first guest with room for the hart is taken; one must have room
/// ([`has_job`] tells beforehand).
pub fn jump_in_guest(guests: &mut Vec<Guest>, harts: &Vec<Hart>, hart_id: usize, time: u64) -> (r: Result<FirstRun, SchedulingError>)
    requires
        hart_id < harts@.len(),
        harts_consistent(old(guests)@, harts@),
        pools_ready(old(guests)@),
        job_available(old(guests)@, harts@, hart_id as int),
        time <= u64::MAX - TIMER_OFFSET,
    ensures
        first_job_outcome(old(guests)@, final(guests)@, harts@, hart_id, time, r),
{
    let ghost before = guests@;
    if is_hart_dedicated(harts, hart_id) {
        // Run a guest on a dedicated hart.
        let hart = &harts[hart_id];
        let n = hart.guests.len();
        let mut idx: usize = 0;
        while idx < n
            invariant
                n == hart.guests@.len(),
                hart.dedicated_to@.len() == n,
                *hart == harts@[hart_id as int],
                guests@ == before,
                before == old(guests)@,
                harts_consistent(before, harts@),
                hart_id < harts@.len(),
                dedicated(harts@[hart_id as int]),
                idx <= n,
                time <= u64::MAX - TIMER_OFFSET,
                first_dedicated_room(before, hart.guests@, 0) == first_dedicated_room(before, hart.guests@, idx as int),
            decreases n - idx,
        {
            match hart.guests[idx] {
                Some(guest_id) => {
                    // Check if a guest is free.
                    let is_free = claim_assigned_hart_slot_if_available(guests, guest_id);
                    if is_free.is_ok() {
                        let ghost mid = guests@;
                        let out = match hart.dedicated_to[idx] {
                            None => Err(SchedulingError::NullVcpu),
                            Some(v) => start_first_run(guests, v, hart_id, idx, time),
                        };
                        proof {
                            assert(first_dedicated_room(before, hart.guests@, idx as int) == Some(idx as int));
                            assert(took_assigned_place(before[guest_id as int], mid[guest_id as int]));
                        }
                        return out;
                    }
                },
                None => {
                    proof {
                        assert(hart.guests@[idx as int] is None);
                        assert(first_dedicated_room(before, hart.guests@, idx as int) is None);
                        assert(first_dedicated_room(before, harts@[hart_id as int].guests@, 0) is None);
                        assert(guests@ == old(guests)@);
                    }
                    return Err(SchedulingError::NoJob);
                },
            }
            idx = idx + 1;
        }
        Err(SchedulingError::NoJob)
    } else {
        // Run a guest on a non-dedicated hart.
        let n = guests.len();
        let mut global_guest_id: usize = 0;
        while global_guest_id < n
            invariant
                n == guests@.len(),
                guests@ == before,
                before == old(guests)@,
                pools_ready(before),
                hart_id < harts@.len(),
                !dedicated(harts@[hart_id as int]),
                global_guest_id <= n,
                time <= u64::MAX - TIMER_OFFSET,
                first_room(before, 0, n as int, 0) == first_room(before, 0, n as int, global_guest_id as int),
            decreases n - global_guest_id,
        {
            proof {
                vstd::arithmetic::div_mod::lemma_small_mod(global_guest_id as nat, n as nat);
            }
            let claimed = claim_vcpu_for_hart_if_available(guests, global_guest_id);
            if let Ok(v) = claimed {
                let ghost mid = guests@;
                let out = start_first_run(guests, v, hart_id, global_guest_id, time);
                proof {
                    assert(crate::guest::attempt_index(0, global_guest_id as int, n as int) == global_guest_id);
                    assert(first_room(before, 0, n as int, global_guest_id as int) == Some(global_guest_id as int));
                    assert(took_vcpu(before[global_guest_id as int], mid[global_guest_id as int]));
                }
                return out;
            }
            global_guest_id = global_guest_id + 1;
        }
        // A hart is excess if there are no free guests for it.
        Err(SchedulingError::NoJob)
    }
}

/// Sets hart `hart_id` up and finds its first guest: the hart's registers
/// after [`hart_configure`] and the outcome of [`jump_in_guest`].
pub fn hart_init(
    guests: &mut Vec<Guest>,
    harts: &Vec<Hart>,
    hart_id: usize,
    csrs: HartCsrs,
    time: u64,
) -> (r: (HartCsrs, Result<FirstRun, SchedulingError>))
    requires
        hart_id < harts@.len(),
        harts_consistent(old(guests)@, harts@),
        pools_ready(old(guests)@),
        job_available(old(guests)@, harts@, hart_id as int),
        time <= u64::MAX - TIMER_OFFSET,
    ensures
        r.0 == (HartCsrs {
            hie: csrs.hie | HIE_VSTIE,
            vsie: csrs.vsie | VSIE_STIE,
            henvcfg: csrs.henvcfg | HENVCFG_STCE,
        }),
        first_job_outcome(old(guests)@, final(guests)@, harts@, hart_id, time, r.1),
{
    let configured = hart_configure(csrs);
    let job = jump_in_guest(guests, harts, hart_id, time);
    (configured, job)
}

/// Size of the stack of each woken hart.
pub const HART_STACK_SIZE: usize = 1024 * 1024;

/// A hart to wake up and the top of the stack it gets.
#[derive(Debug, Clone, Copy, PartialEq, Eq)]
pub struct HartStart {
    pub hart_id: usize,
    pub stack_top: usize,
}

/// The ids of the harts other than `main_hart_id`, in order, among
/// `0 .. harts_count`.
pub open spec fn secondary_harts(main_hart_id: int, harts_count: int) -> Seq<int>
    decreases harts_count,
{
    if harts_count <= 0 {
        Seq::empty()
    } else if harts_count - 1 == main_hart_id {
        secondary_harts(main_hart_id, harts_count - 1)
    } else {
        secondary_harts(main_hart_id, harts_count - 1).push(harts_count - 1)
    }
}

proof fn lemma_secondary_len_step(main: int, h: int)
    requires
        0 <= h,
    ensures
        secondary_harts(main, h + 1).len() == secondary_harts(main, h).len() + (if h == main { 0int } else { 1int }),
{
}

proof fn lemma_secondary_len_monotone(main: int, a: int, b: int)
    requires
        0 <= a <= b,
    ensures
        secondary_harts(main, a).len() <= secondary_harts(main, b).len(),
    decreases b - a,
{
    if a < b {
        lemma_secondary_len_monotone(main, a, b - 1);
        lemma_secondary_len_step(main, b - 1);
    }
}

/// Gives every hart of `0 .. harts_count` but `main_hart_id` a stack of its
/// own from the heap, in the order of their ids.  `None` when the heap runs
/// out.
pub fn start_harts(heap: &mut Heap, mem: &mut Memory, main_hart_id: usize, harts_count: usize) -> (r: Option<Vec<HartStart>>)
    requires
        old(heap).wf(),
        old(heap).memory_clean(old(mem)@),
    ensures
        final(heap).wf(),
        final(heap).memory_clean(final(mem)@),
        final(heap).base_addr == old(heap).base_addr,
        old(heap).handed_out@.subset_of(final(heap).handed_out@),
        forall|x: int| #[trigger]
            old(heap).handed_out@.contains(x) ==> byte_of(final(mem)@, x) == byte_of(old(mem)@, x),
        r is None ==> first_nonempty(final(heap).free_list@, 20) == FREE_LIST_LENGTH,
        r is Some <==> blocks_fit(
            old(heap).free_list@,
            20,
            secondary_harts(main_hart_id as int, harts_count as int).len(),
        ),
        r matches Some(starts) ==> {
            &&& starts@.len() == secondary_harts(main_hart_id as int, harts_count as int).len()
            &&& forall|i: int| 0 <= i < starts@.len() ==> #[trigger] starts@[i].hart_id == secondary_harts(main_hart_id as int, harts_count as int)[i]
            &&& forall|i: int| #![trigger starts@[i]] 0 <= i < starts@.len() ==> {
                let lo = starts@[i].stack_top - HART_STACK_SIZE;
                &&& lo >= 0
                &&& forall|x: int| lo <= x < starts@[i].stack_top ==> #[trigger] final(heap).handed_out@.contains(x)
                    && !old(heap).handed_out@.contains(x)
            }
            &&& forall|i: int, j: int| 0 <= i < j < starts@.len() ==> #[trigger] starts@[i].stack_top + HART_STACK_SIZE <= #[trigger] starts@[j].stack_top
                || starts@[j].stack_top + HART_STACK_SIZE <= starts@[i].stack_top
        },
{
    let stack_size = HART_STACK_SIZE;
    let mut starts: Vec<HartStart> = Vec::new();
    let mut hart_id: usize = 0;
    let ghost h0 = heap.handed_out@;
    let ghost total = secondary_harts(main_hart_id as int, harts_count as int).len();
    proof {
        lemma_hart_stack_order();
    }
    while hart_id < harts_count
        invariant
            total == secondary_harts(main_hart_id as int, harts_count as int).len(),
            starts@.len() <= total,
            blocks_fit(heap.free_list@, 20, (total - starts@.len()) as nat) == blocks_fit(old(heap).free_list@, 20, total),
            heap.wf(),
            heap.memory_clean(mem@),
            heap.base_addr == old(heap).base_addr,
            h0 == old(heap).handed_out@,
            h0.subset_of(heap.handed_out@),
            forall|x: int| #[trigger] h0.contains(x) ==> byte_of(mem@, x) == byte_of(old(mem)@, x),
            hart_id <= harts_count,
            stack_size == HART_STACK_SIZE,
            starts@.len() == secondary_harts(main_hart_id as int, hart_id as int).len(),
            forall|i: int| 0 <= i < starts@.len() ==> #[trigger] starts@[i].hart_id == secondary_harts(main_hart_id as int, hart_id as int)[i],
            forall|i: int| #![trigger starts@[i]] 0 <= i < starts@.len() ==> {
                let lo = starts@[i].stack_top - HART_STACK_SIZE;
                &&& lo >= 0
                &&& forall|x: int| lo <= x < starts@[i].stack_top ==> #[trigger] heap.handed_out@.contains(x)
                    && !h0.contains(x)
            },
            forall|i: int, j: int| 0 <= i < j < starts@.len() ==> #[trigger] starts@[i].stack_top + HART_STACK_SIZE <= #[trigger] starts@[j].stack_top
                || starts@[j].stack_top + HART_STACK_SIZE <= starts@[i].stack_top,
        decreases harts_count - hart_id,
    {
        // Skip the main hart.
        if hart_id != main_hart_id {
            // Allocate a stack for a hart.
            let ghost handed_before = heap.handed_out@;
            let ghost mem_before = mem@;
            let ghost fl_before = heap.free_list@;
            proof {
                lemma_hart_stack_order();
                lemma_secondary_len_step(main_hart_id as int, hart_id as int);
                lemma_secondary_len_monotone(main_hart_id as int, hart_id + 1, harts_count as int);
                let f = first_nonempty(fl_before, 20);
                crate::allocator::lemma_first_nonempty(fl_before, 20);
                if f == 20 {
                    crate::allocator::lemma_clean_head_link(*heap, mem_before, 20);
                }
            }
            let sp = alloc_pages(heap, mem, stack_size);
            match sp {
                None => {
                    proof {
                        crate::allocator::lemma_first_nonempty(heap.free_list@, 20);
                    }
                    return None;
                },
                Some(sp) => {
                    let sp_end = sp + stack_size;
                    proof {
                        assert forall|i: int| #![trigger starts@[i]] 0 <= i < starts@.len() implies {
                            let lo = starts@[i].stack_top - HART_STACK_SIZE;
                            &&& sp_end + HART_STACK_SIZE <= starts@[i].stack_top || starts@[i].stack_top + HART_STACK_SIZE <= sp_end
                        } by {
                            let lo = starts@[i].stack_top - HART_STACK_SIZE;
                            if sp < starts@[i].stack_top && lo < sp_end {
                                let x: int = if sp < lo { lo } else { sp as int };
                                assert(handed_before.contains(x));
                                assert(block_bytes(sp as int, 20).contains(x));
                            }
                        }
                    }
                    starts.push(HartStart { hart_id, stack_top: sp_end });
                    proof {
                        assert(heap.free_list@ == crate::allocator::after_clean_alloc(fl_before, 20));
                    }
                },
            }
        }
        hart_id = hart_id + 1;
    }
    Some(starts)
}

proof fn lemma_hart_stack_order()
    ensures
        crate::allocator::page_round_up(HART_STACK_SIZE as int) == HART_STACK_SIZE,
        crate::allocator::request_order(HART_STACK_SIZE as int) == 20,
        block_size(20) == HART_STACK_SIZE,
{
    vstd::arithmetic::power2::lemma2_to64();
    reveal_with_fuel(crate::allocator::order_from, 22);
}

/// Whether waking the harts up went well: the result of the last call, or
/// success when no hart was woken.  `Err` carries the error code and value
/// that the call returned.
pub fn wake_up_status(results: &Vec<(isize, isize)>) -> (r: Result<(), (isize, isize)>)
    ensures
        results@.len() == 0 ==> r is Ok,
        results@.len() > 0 ==> (r is Ok <==> results@.last().0 == 0),
        results@.len() > 0 && results@.last().0 != 0 ==> r == Err::<(), (isize, isize)>(results@.last()),
{
    let mut error_code: isize = 0;
    let mut value: isize = 0;
    let mut i: usize = 0;
    while i < results.len()
        invariant
            i <= results@.len(),
            i == 0 ==> error_code == 0,
            i > 0 ==> (error_code, value) == results@[i - 1],
        decreases results@.len() - i,
    {
        error_code = results[i].0;
        value = results[i].1;
        i = i + 1;
    }
    if error_code != 0 {
        Err((error_code, value))
    } else {
        Ok(())
    }
}

/// What probing hart `id` for its status tells: keep counting with the next
/// id, or the number of harts.
#[derive(Debug, Clone, Copy, PartialEq, Eq)]
pub enum HartProbe {
    Next(usize),
    Counted(usize),
}

/// One step of counting the harts: hart `id` answered `error_code`; a hart
/// that exists answers zero, and the count is the first id that does not.
pub fn hart_probe_step(id: usize, error_code: usize) -> (r: HartProbe)
    requires
        id < usize::MAX,
    ensures
        error_code != 0 ==> r == HartProbe::Counted(id),
        error_code == 0 ==> r == HartProbe::Next((id + 1) as usize),
{
    if error_code != 0 {
        HartProbe::Counted(id)
    } else {
        HartProbe::Next(id + 1)
    }
}

} // verus!
