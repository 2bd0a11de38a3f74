use hypersieve::guest::{
    claim_assigned_hart_slot_if_available, claim_assigned_in_round, claim_vcpu_for_hart_if_available,
    claim_vcpu_in_round, fill_dedicated_slots, harts_are_consistent, pools_are_ready,
    release_assigned_place, release_vcpu, Guest, SchedulingError, VcpuRef,
};
use hypersieve::multihart::{has_job, is_hart_dedicated, jump_in_guest, FirstRun, Hart};
use hypersieve::vcpu::{can_switch, Vcpu, TIMER_OFFSET};

fn vref(guest: usize, slot: usize) -> VcpuRef {
    VcpuRef { guest, slot }
}

/// A guest with `slots` vCPUs, all of them in its pool.
fn guest(index: usize, slots: usize, capacity: usize, assigned_capacity: usize) -> Guest {
    let mut vcpus = Vec::new();
    let mut pool = Vec::new();
    for slot in 0..slots {
        let mut v = Vcpu::zeroed(128);
        v.sepc = 0x8000_0000;
        vcpus.push(Some(v));
        pool.push(Some(vref(index, slot)));
    }
    Guest {
        entry_gpa: 0x8000_0000,
        vcpu_ptrs: pool,
        vcpus,
        active_hart_count: 0,
        active_assigned_hart_count: 0,
        hart_capacity: capacity,
        assigned_hart_capacity: assigned_capacity,
        assigned_harts: Vec::new(),
        data: Vec::new(),
    }
}

fn free_hart() -> Hart {
    Hart { dedicated_to: Vec::new(), guests: Vec::new() }
}

#[test]
fn claim_takes_the_front_of_the_pool_until_the_guest_is_full() {
    let mut guests = vec![guest(0, 3, 2, 0)];
    guests[0].vcpu_ptrs[2] = None;
    assert_eq!(claim_vcpu_for_hart_if_available(&mut guests, 0), Ok(vref(0, 0)));
    assert_eq!(guests[0].vcpu_ptrs, vec![Some(vref(0, 1)), None, None]);
    assert_eq!(guests[0].active_hart_count, 1);
    assert_eq!(claim_vcpu_for_hart_if_available(&mut guests, 0), Ok(vref(0, 1)));
    assert_eq!(guests[0].vcpu_ptrs, vec![None, None, None]);
    assert_eq!(guests[0].active_hart_count, 2);
    assert_eq!(claim_vcpu_for_hart_if_available(&mut guests, 0), Err(()));
    assert_eq!(guests[0].active_hart_count, 2);
}

#[test]
fn release_puts_the_vcpu_in_the_first_empty_slot() {
    let mut guests = vec![guest(0, 3, 3, 0)];
    assert_eq!(claim_vcpu_for_hart_if_available(&mut guests, 0), Ok(vref(0, 0)));
    assert_eq!(claim_vcpu_for_hart_if_available(&mut guests, 0), Ok(vref(0, 1)));
    release_vcpu(&mut guests, 0, vref(0, 0));
    assert_eq!(guests[0].vcpu_ptrs, vec![Some(vref(0, 2)), Some(vref(0, 0)), None]);
    assert_eq!(guests[0].active_hart_count, 1);
}

#[test]
fn claim_then_release_keeps_the_pool_size_and_count() {
    let mut guests = vec![guest(0, 2, 2, 0)];
    let before_count = guests[0].active_hart_count;
    let taken = claim_vcpu_for_hart_if_available(&mut guests, 0).unwrap();
    release_vcpu(&mut guests, 0, taken);
    assert_eq!(guests[0].active_hart_count, before_count);
    assert_eq!(guests[0].vcpu_ptrs.iter().filter(|p| p.is_some()).count(), 2);
    assert_eq!(guests[0].vcpu_ptrs, vec![Some(vref(0, 1)), Some(vref(0, 0))]);
}

#[test]
fn release_below_zero_wraps_the_counter() {
    let mut guests = vec![guest(0, 1, 1, 1)];
    guests[0].vcpu_ptrs[0] = None;
    release_vcpu(&mut guests, 0, vref(0, 0));
    assert_eq!(guests[0].active_hart_count, usize::MAX);
    release_assigned_place(&mut guests, 0);
    assert_eq!(guests[0].active_assigned_hart_count, usize::MAX);
}

#[test]
fn assigned_slots_are_counted_against_their_capacity() {
    let mut guests = vec![guest(0, 1, 0, 1)];
    assert_eq!(claim_assigned_hart_slot_if_available(&mut guests, 0), Ok(()));
    assert_eq!(guests[0].active_assigned_hart_count, 1);
    assert_eq!(claim_assigned_hart_slot_if_available(&mut guests, 0), Err(()));
    release_assigned_place(&mut guests, 0);
    assert_eq!(guests[0].active_assigned_hart_count, 0);
    assert_eq!(claim_assigned_hart_slot_if_available(&mut guests, 0), Ok(()));
}

#[test]
fn round_skips_full_guests_and_wraps_around() {
    let mut guests = vec![guest(0, 1, 1, 0), guest(1, 1, 0, 0), guest(2, 1, 1, 0)];
    assert_eq!(claim_vcpu_in_round(&mut guests, 1), Some((vref(2, 0), 2)));
    assert_eq!(guests[2].active_hart_count, 1);
    // Starting past the end starts at the first guest.
    assert_eq!(claim_vcpu_in_round(&mut guests, 7), Some((vref(0, 0), 0)));
    assert_eq!(claim_vcpu_in_round(&mut guests, 0), None);
}

#[test]
fn assigned_round_stops_at_an_empty_slot() {
    let mut guests = vec![guest(0, 1, 0, 0), guest(1, 1, 0, 1)];
    let hart = Hart {
        dedicated_to: vec![Some(vref(0, 0)), Some(vref(1, 0)), None],
        guests: vec![Some(0), Some(1), None],
    };
    assert_eq!(claim_assigned_in_round(&mut guests, &hart, 0), Ok(Some((Some(vref(1, 0)), 1))));
    assert_eq!(guests[1].active_assigned_hart_count, 1);
    // Guest 1 is full now, so the round from slot 1 reaches the empty slot.
    assert_eq!(claim_assigned_in_round(&mut guests, &hart, 1), Err(()));
    let full_hart = Hart {
        dedicated_to: vec![Some(vref(0, 0)), Some(vref(1, 0))],
        guests: vec![Some(0), Some(1)],
    };
    assert_eq!(claim_assigned_in_round(&mut guests, &full_hart, 5), Ok(None));
}

#[test]
fn dedicated_slots_take_the_front_of_the_pool() {
    let mut pool = vec![Some(vref(0, 0)), Some(vref(0, 1)), None];
    let mut slots = vec![None, Some(vref(1, 0)), None];
    assert_eq!(fill_dedicated_slots(&mut pool, &mut slots), Ok(()));
    assert_eq!(slots, vec![Some(vref(0, 0)), Some(vref(1, 0)), Some(vref(0, 1))]);
    assert_eq!(pool, vec![None, None, None]);
    let mut short_pool = vec![Some(vref(0, 0))];
    let mut two_slots = vec![None, None];
    assert_eq!(fill_dedicated_slots(&mut short_pool, &mut two_slots), Err(()));
}

#[test]
fn a_hart_is_dedicated_when_its_first_slot_is_set() {
    let harts = vec![
        free_hart(),
        Hart { dedicated_to: vec![Some(vref(0, 0))], guests: vec![Some(0)] },
        Hart { dedicated_to: vec![None, Some(vref(0, 0))], guests: vec![Some(0), Some(0)] },
    ];
    assert!(!is_hart_dedicated(&harts, 0));
    assert!(is_hart_dedicated(&harts, 1));
    assert!(!is_hart_dedicated(&harts, 2));
}

#[test]
fn a_free_hart_starts_the_first_guest_with_room() {
    let mut guests = vec![guest(0, 1, 0, 0), guest(1, 2, 2, 0)];
    let harts = vec![free_hart(), free_hart()];
    let run = jump_in_guest(&mut guests, &harts, 1, 500).unwrap();
    assert_eq!(run, FirstRun { vcpu: vref(1, 0), deadline: 500 + TIMER_OFFSET });
    let started = guests[1].vcpus[0].as_ref().unwrap();
    assert_eq!(started.host_hart_id, 1);
    assert_eq!(started.guest_id_for_hart, 1);
    assert_eq!(guests[1].active_hart_count, 1);
    assert_eq!(guests[1].vcpu_ptrs, vec![Some(vref(1, 1)), None]);
}

#[test]
fn a_dedicated_hart_starts_its_first_guest_with_room() {
    let mut guests = vec![guest(0, 1, 0, 0), guest(1, 1, 0, 1)];
    let harts = vec![Hart {
        dedicated_to: vec![Some(vref(0, 0)), Some(vref(1, 0))],
        guests: vec![Some(0), Some(1)],
    }];
    let run = jump_in_guest(&mut guests, &harts, 0, 0).unwrap();
    assert_eq!(run, FirstRun { vcpu: vref(1, 0), deadline: TIMER_OFFSET });
    let started = guests[1].vcpus[0].as_ref().unwrap();
    assert_eq!(started.host_hart_id, 0);
    assert_eq!(started.guest_id_for_hart, 1);
    assert_eq!(guests[1].active_assigned_hart_count, 1);
}

#[test]
fn jump_in_guest_errors() {
    // No guest has room: there is no job, and the hart must not look for one.
    let guests = vec![guest(0, 1, 0, 0)];
    let harts = vec![free_hart()];
    assert!(!has_job(&guests, &harts, 0));
    let mut full = vec![guest(0, 1, 0, 1)];
    full[0].active_assigned_hart_count = 1;
    let dedicated = vec![Hart { dedicated_to: vec![Some(vref(0, 0))], guests: vec![Some(0)] }];
    assert!(!has_job(&full, &dedicated, 0));
    full[0].active_assigned_hart_count = 0;
    assert!(has_job(&full, &dedicated, 0));
    let mut one = vec![guest(0, 1, 0, 0), guest(1, 1, 0, 1)];
    let null_hart = vec![Hart { dedicated_to: vec![Some(vref(0, 0)), None], guests: vec![Some(0), Some(1)] }];
    assert_eq!(jump_in_guest(&mut one, &null_hart, 0, 0), Err(SchedulingError::NullVcpu));
    assert_eq!(one[1].active_assigned_hart_count, 1);
    let mut two = vec![guest(0, 1, 0, 2)];
    let missing = vec![Hart { dedicated_to: vec![Some(vref(0, 4))], guests: vec![Some(0)] }];
    assert_eq!(jump_in_guest(&mut two, &missing, 0, 0), Err(SchedulingError::MissingVcpu));
}

#[test]
fn run_next_guest_moves_a_free_hart_to_the_next_guest() {
    let mut guests = vec![guest(0, 1, 1, 0), guest(1, 1, 1, 0)];
    let harts = vec![free_hart()];
    let first = jump_in_guest(&mut guests, &harts, 0, 0).unwrap();
    assert_eq!(first.vcpu, vref(0, 0));
    guests[0].vcpus[0].as_mut().unwrap().host_sp = 0x4000;
    let next = Vcpu::run_next_guest(&mut guests, &harts, vref(0, 0), 1000).unwrap();
    assert_eq!(next, vref(1, 0));
    assert_eq!(guests[0].vcpu_ptrs, vec![Some(vref(0, 0))]);
    assert_eq!(guests[0].active_hart_count, 0);
    assert_eq!(guests[1].active_hart_count, 1);
    let prepared = guests[1].vcpus[0].as_ref().unwrap();
    assert_eq!(prepared.host_hart_id, 0);
    assert_eq!(prepared.guest_id_for_hart, 1);
    assert_eq!(prepared.host_sp, 0x4000);
    assert_eq!(prepared.vstimecmp, 1000 + TIMER_OFFSET);
}

#[test]
fn run_next_guest_comes_back_to_the_same_guest_when_alone() {
    let mut guests = vec![guest(0, 1, 1, 0)];
    let harts = vec![free_hart()];
    jump_in_guest(&mut guests, &harts, 0, 0).unwrap();
    let next = Vcpu::run_next_guest(&mut guests, &harts, vref(0, 0), 7).unwrap();
    assert_eq!(next, vref(0, 0));
    assert_eq!(guests[0].active_hart_count, 1);
    assert_eq!(guests[0].vcpus[0].as_ref().unwrap().vstimecmp, 7 + TIMER_OFFSET);
}

#[test]
fn run_next_guest_on_a_dedicated_hart_tries_the_next_slot() {
    let mut guests = vec![guest(0, 1, 0, 1), guest(1, 1, 0, 1)];
    let harts = vec![Hart {
        dedicated_to: vec![Some(vref(0, 0)), Some(vref(1, 0))],
        guests: vec![Some(0), Some(1)],
    }];
    let first = jump_in_guest(&mut guests, &harts, 0, 0).unwrap();
    assert_eq!(first.vcpu, vref(0, 0));
    let next = Vcpu::run_next_guest(&mut guests, &harts, vref(0, 0), 10).unwrap();
    assert_eq!(next, vref(1, 0));
    assert_eq!(guests[0].active_assigned_hart_count, 0);
    assert_eq!(guests[1].active_assigned_hart_count, 1);
    assert_eq!(guests[1].vcpus[0].as_ref().unwrap().guest_id_for_hart, 1);
}

#[test]
fn run_next_guest_reports_a_round_without_room() {
    let mut guests = vec![guest(0, 1, 1, 0), guest(1, 1, 0, 0)];
    let harts = vec![free_hart()];
    jump_in_guest(&mut guests, &harts, 0, 0).unwrap();
    // Another hart took the guest's place meanwhile.
    guests[0].active_hart_count = 1;
    guests[0].hart_capacity = 0;
    assert_eq!(
        Vcpu::run_next_guest(&mut guests, &harts, vref(0, 0), 0),
        Err(SchedulingError::NoGuestReady)
    );
}

fn pool_is_well_formed(g: &Guest) -> bool {
    let pooled = g.vcpu_ptrs.iter().filter(|p| p.is_some()).count();
    let packed = g.vcpu_ptrs.iter().skip_while(|p| p.is_some()).all(|p| p.is_none());
    packed
        && g.active_hart_count <= g.hart_capacity
        && pooled + g.active_hart_count >= g.hart_capacity
        && pooled + g.active_hart_count <= g.vcpu_ptrs.len()
}

#[test]
fn switching_keeps_every_pool_well_formed() {
    let mut guests = vec![guest(0, 2, 2, 0), guest(1, 1, 1, 0), guest(2, 2, 1, 0)];
    let harts = vec![free_hart(), free_hart()];
    let mut current = vec![
        jump_in_guest(&mut guests, &harts, 0, 0).unwrap().vcpu,
        jump_in_guest(&mut guests, &harts, 1, 0).unwrap().vcpu,
    ];
    assert!(guests.iter().all(pool_is_well_formed));
    for step in 0..12u64 {
        let h = (step % 2) as usize;
        let next = Vcpu::run_next_guest(&mut guests, &harts, current[h], step * 100).unwrap();
        current[h] = next;
        assert!(guests.iter().all(pool_is_well_formed));
        let running: usize = guests.iter().map(|g| g.active_hart_count).sum();
        assert_eq!(running, 2);
    }
    assert_ne!(current[0], current[1]);
}

#[test]
fn checkers_tell_when_a_switch_can_go_on() {
    let mut guests = vec![guest(0, 1, 1, 0), guest(1, 1, 1, 0)];
    let harts = vec![free_hart()];
    assert!(harts_are_consistent(&guests, &harts));
    assert!(pools_are_ready(&guests));
    let first = jump_in_guest(&mut guests, &harts, 0, 0).unwrap();
    assert!(can_switch(&guests, &harts, first.vcpu));
    assert!(!can_switch(&guests, &harts, vref(5, 0)));
    let bad = vec![Hart { dedicated_to: vec![None], guests: vec![Some(7)] }];
    assert!(!harts_are_consistent(&guests, &bad));
    let mut empty = vec![guest(0, 1, 1, 0)];
    empty[0].vcpu_ptrs[0] = None;
    assert!(!pools_are_ready(&empty));
}
