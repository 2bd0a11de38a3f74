use hypersieve::allocator::{heap_order_of, Heap};
use hypersieve::guest::{
    allocate_guest_memory, initialize_guests, Guest, InitError, VcpuRef,
};
use hypersieve::guest_table::{PageEntry, Table, PTE_R, PTE_U, PTE_V, PTE_W, PTE_X};
use hypersieve::memory::Memory;
use hypersieve::multihart::{
    hart_configure, hart_init, hart_probe_step, start_harts, wake_up_status, FirstRun, Hart,
    HartCsrs, HartProbe, HART_STACK_SIZE, HENVCFG_STCE, HIE_VSTIE, VSIE_STIE,
};
use hypersieve::trap::{
    decode_scause, handle_trap, record_sbi_result, scause_description, trap_action_of, TrapAction,
    TrapOutcome,
};
use hypersieve::uart::{RegisterWrite, Uart, QEMU_UART_ADDR};
use hypersieve::vcpu::{Vcpu, TIMER_OFFSET, VCPU_STACK_SIZE};

fn heap_over(start: usize, size: usize) -> Heap {
    let mut heap = Heap::empty();
    assert!(heap_order_of(size).is_some());
    heap.init(start, start + size);
    heap
}

fn walk(mem: &Memory, root: u64, gpa: u64) -> Option<u64> {
    let mut table = Table { base: root };
    let mut level = 3;
    loop {
        let entry = PageEntry(mem.read_u64(table.entry_by_addr(gpa, level)));
        if !entry.is_valid() {
            return None;
        }
        if level == 0 {
            return Some(entry.0);
        }
        table = Table { base: entry.paddr() };
        level -= 1;
    }
}

fn root_of(hgatp: u64) -> u64 {
    (hgatp & ((1u64 << 44) - 1)) << 12
}

#[test]
fn scause_splits_into_interrupt_bit_and_code() {
    assert_eq!(decode_scause((1u64 << 63) | 6), (1, 6));
    assert_eq!(decode_scause(10), (0, 10));
    assert_eq!(decode_scause(u64::MAX), (1, u64::MAX >> 1));
}

#[test]
fn scause_descriptions() {
    assert_eq!(scause_description(1, 6), "Virtual supervisor timer interrupt");
    assert_eq!(scause_description(0, 10), "Environment call from VS-mode");
    assert_eq!(scause_description(0, 23), "Store/AMO guest-page fault");
    assert_eq!(scause_description(0, 14), "Unhandable exception code");
    assert_eq!(scause_description(1, 0), "Unhandable exception code");
}

fn trapped(scause: u64, a0: u64, a7: u64) -> Vcpu {
    let mut v = Vcpu::zeroed(128);
    v.scause = scause;
    v.a0 = a0;
    v.a7 = a7;
    v.sepc = 0x8000_0100;
    v
}

#[test]
fn timer_interrupt_runs_the_next_guest() {
    let mut v = trapped((1u64 << 63) | 6, 0, 0);
    let out = handle_trap(&mut v);
    assert_eq!(out, TrapOutcome { save_vector_registers: false, action: TrapAction::RunNextGuest });
    assert_eq!(v.sepc, 0x8000_0100);
}

#[test]
fn dirty_vector_state_is_saved_and_marked_clean() {
    let mut v = trapped((1u64 << 63) | 6, 0, 0);
    v.vsstatus = (3 << 9) | (1 << 13);
    let out = handle_trap(&mut v);
    assert!(out.save_vector_registers);
    assert_eq!(v.vsstatus, (2 << 9) | (1 << 13));
    let mut clean = trapped((1u64 << 63) | 6, 0, 0);
    clean.vsstatus = 1 << 9;
    assert!(!handle_trap(&mut clean).save_vector_registers);
    assert_eq!(clean.vsstatus, 1 << 9);
}

#[test]
fn served_ecalls_step_past_the_instruction() {
    let mut base = trapped(10, 0, 0x10);
    assert_eq!(handle_trap(&mut base).action, TrapAction::ForwardBaseEcall);
    assert_eq!(base.sepc, 0x8000_0104);
    let mut putchar = trapped(10, b'A' as u64, 0x01);
    assert_eq!(handle_trap(&mut putchar).action, TrapAction::LegacyPutchar { character: 65 });
    assert_eq!(putchar.sepc, 0x8000_0104);
}

#[test]
fn other_traps_are_not_served() {
    assert_eq!(trap_action_of(10, 0, 0x99), TrapAction::UnsupportedEcall { eid: 0x99 });
    assert_eq!(
        trap_action_of(2, 0, 0x10),
        TrapAction::Unhandled { interrupt_bit: 0, exception_code: 2 }
    );
    assert_eq!(
        trap_action_of((1 << 63) | 9, 0, 0),
        TrapAction::Unhandled { interrupt_bit: 1, exception_code: 9 }
    );
    assert_eq!(trap_action_of((1 << 63) | 6, 0, 0), TrapAction::RunNextGuest);
    assert_eq!(trap_action_of(10, 66, 1), TrapAction::LegacyPutchar { character: 66 });
}

#[test]
fn uart_setup_writes() {
    let uart = Uart::new(QEMU_UART_ADDR);
    assert_eq!(uart.base_addr, 0x1000_0000);
    let b = QEMU_UART_ADDR;
    assert_eq!(
        uart.init(),
        vec![
            RegisterWrite { addr: b + 2, value: 1 },
            RegisterWrite { addr: b + 1, value: 2 },
            RegisterWrite { addr: b + 3, value: 0x80 },
            RegisterWrite { addr: b, value: 2 },
            RegisterWrite { addr: b + 1, value: 0 },
            RegisterWrite { addr: b + 3, value: 3 },
        ]
    );
}

#[test]
fn uart_sends_a_byte_when_ready() {
    let mut uart = Uart::new(0x2000);
    assert_eq!(uart.line_status_addr(), 0x2005);
    assert!(Uart::transmitter_ready(0x20));
    assert!(Uart::transmitter_ready(0x60));
    assert!(!Uart::transmitter_ready(0x1f));
    assert_eq!(uart.put(b'x'), RegisterWrite { addr: 0x2000, value: b'x' });
    assert_eq!(uart.base_addr, 0x2000);
}

#[test]
fn zeroed_vcpu_has_empty_registers() {
    let v = Vcpu::zeroed(256);
    assert_eq!(v.vector_registers.len(), 32);
    assert!(v.vector_registers.iter().all(|r| r.len() == 8 && r.iter().all(|w| *w == 0)));
    assert_eq!(v.sepc, 0);
    assert_eq!(v.float_registers, [0u64; 32]);
}

#[test]
fn new_vcpu_boots_the_guest() {
    let mut heap = heap_over(0x10_0000, 0x10_0000);
    let mut mem = Memory::new();
    let table = hypersieve::guest_table::GuestPageTable { table: 0x8020_0000 };
    let v = Vcpu::new(&table, 0x8000_0000, 3, &mut heap, &mut mem, 128).unwrap();
    assert_eq!(v.hstatus, (1 << 7) | (2 << 32));
    assert_eq!(v.hgatp, (9u64 << 60) | 0x80200);
    assert_eq!(v.sstatus, (1 << 8) | (1 << 9) | (1 << 13));
    assert_eq!(v.vsstatus, (1 << 9) | (1 << 13));
    assert_eq!(v.sepc, 0x8000_0000);
    assert_eq!(v.a0, 3);
    assert_eq!(v.host_sp, 0x10_0000 + VCPU_STACK_SIZE as u64);
    assert_eq!(v.ra, 0);
    assert_eq!(v.vector_registers[31].len(), 4);
    // The heap has no second stack.
    assert!(Vcpu::new(&table, 0x8000_0000, 4, &mut heap, &mut mem, 128).is_none());
}

#[test]
fn very_first_run_sets_the_hart_and_the_deadline() {
    let mut v = Vcpu::zeroed(128);
    assert_eq!(v.very_fisrt_run(2, 1, 1000), 1000 + TIMER_OFFSET);
    assert_eq!(v.host_hart_id, 2);
    assert_eq!(v.guest_id_for_hart, 1);
}

#[test]
fn guest_memory_maps_the_entry_page_to_the_image() {
    let mut heap = heap_over(0x20_0000, 0x20_0000);
    let mut mem = Memory::new();
    let image = [0x13u8, 0x05, 0x10, 0x00, 0x73, 0x00, 0x10, 0x00];
    let v = allocate_guest_memory(&mut heap, &mut mem, 0x8000_0000, &image, 1, 128).unwrap();
    assert_eq!(v.sepc, 0x8000_0000);
    assert_eq!(v.a0, 1);
    let leaf = walk(&mem, root_of(v.hgatp), 0x8000_0000).unwrap();
    let kernel = PageEntry(leaf).paddr();
    assert_eq!(leaf & 0x3ff, PTE_R | PTE_W | PTE_X | PTE_V | PTE_U);
    for (i, byte) in image.iter().enumerate() {
        assert_eq!(mem.read_u8(kernel + i as u64), *byte);
    }
}

fn loadable_guest(capacity: usize, assigned_capacity: usize) -> Guest {
    let slots = capacity + assigned_capacity;
    Guest {
        entry_gpa: 0x8000_0000,
        vcpu_ptrs: vec![None; slots],
        vcpus: (0..slots).map(|_| Some(Vcpu::zeroed(128))).collect(),
        active_hart_count: 0,
        active_assigned_hart_count: 0,
        hart_capacity: capacity,
        assigned_hart_capacity: assigned_capacity,
        assigned_harts: vec![Some(0)],
        data: vec![0x73, 0x00, 0x50, 0x10],
    }
}

#[test]
fn initialize_guests_loads_vcpus_and_fills_dedicated_slots() {
    let mut heap = heap_over(0x100_0000, 0x100_0000);
    let mut mem = Memory::new();
    let mut guests = vec![loadable_guest(1, 1)];
    let mut harts = vec![Hart { dedicated_to: vec![None], guests: vec![Some(0)] }];
    assert_eq!(initialize_guests(&mut guests, &mut harts, &mut heap, &mut mem, 128), Ok(()));
    for (i, slot) in guests[0].vcpus.iter().enumerate() {
        let v = slot.as_ref().unwrap();
        assert_eq!(v.a0, i as u64);
        assert_eq!(v.sepc, 0x8000_0000);
        let leaf = walk(&mem, root_of(v.hgatp), 0x8000_0000).unwrap();
        assert_eq!(mem.read_u8(PageEntry(leaf).paddr()), 0x73);
    }
    assert_eq!(harts[0].dedicated_to, vec![Some(VcpuRef { guest: 0, slot: 0 })]);
    assert_eq!(guests[0].vcpu_ptrs, vec![Some(VcpuRef { guest: 0, slot: 1 }), None]);
}

#[test]
fn initialize_guests_errors() {
    let mut heap = heap_over(0x100_0000, 0x100_0000);
    let mut mem = Memory::new();
    let mut missing = vec![loadable_guest(2, 0)];
    missing[0].vcpus.pop();
    let mut harts = vec![Hart { dedicated_to: vec![None], guests: vec![Some(0)] }];
    assert_eq!(
        initialize_guests(&mut missing, &mut harts, &mut heap, &mut mem, 128),
        Err(InitError::VcpuSlotMissing)
    );
    let mut out_of_range = vec![loadable_guest(1, 0)];
    out_of_range[0].assigned_harts = vec![Some(5)];
    assert_eq!(
        initialize_guests(&mut out_of_range, &mut harts, &mut heap, &mut mem, 128),
        Err(InitError::AssignedHartOutOfRange)
    );
    let mut small_heap = heap_over(0x10000, 0x10000);
    let mut no_room = vec![loadable_guest(1, 0)];
    assert_eq!(
        initialize_guests(&mut no_room, &mut harts, &mut small_heap, &mut mem, 128),
        Err(InitError::OutOfMemory)
    );
}

#[test]
fn hart_configure_sets_the_timer_bits() {
    let csrs = HartCsrs { hie: 0x1, vsie: 0x0, henvcfg: 0x10 };
    let configured = hart_configure(csrs);
    assert_eq!(configured, HartCsrs { hie: 0x41, vsie: 0x40, henvcfg: 0x10 | (1u64 << 63) });
    assert_eq!(configured.hie & HIE_VSTIE, HIE_VSTIE);
    assert_eq!(configured.vsie & VSIE_STIE, VSIE_STIE);
    assert_eq!(configured.henvcfg & HENVCFG_STCE, HENVCFG_STCE);
    assert_eq!(hart_configure(configured), configured);
}

#[test]
fn hart_init_configures_then_starts_a_guest() {
    let mut guests = vec![loadable_guest(1, 0)];
    guests[0].vcpu_ptrs[0] = Some(VcpuRef { guest: 0, slot: 0 });
    let harts = vec![Hart { dedicated_to: Vec::new(), guests: Vec::new() }];
    let (csrs, job) = hart_init(&mut guests, &harts, 0, HartCsrs { hie: 0, vsie: 0, henvcfg: 0 }, 5);
    assert_eq!(csrs, HartCsrs { hie: 0x40, vsie: 0x40, henvcfg: 1u64 << 63 });
    assert_eq!(job, Ok(FirstRun { vcpu: VcpuRef { guest: 0, slot: 0 }, deadline: 5 + TIMER_OFFSET }));
}

#[test]
fn start_harts_gives_each_other_hart_its_own_stack() {
    let mut heap = heap_over(0x100_0000, 0x100_0000);
    let mut mem = Memory::new();
    let starts = start_harts(&mut heap, &mut mem, 1, 3).unwrap();
    assert_eq!(starts.len(), 2);
    assert_eq!(starts[0].hart_id, 0);
    assert_eq!(starts[1].hart_id, 2);
    let (a, b) = (starts[0].stack_top, starts[1].stack_top);
    assert!(a + HART_STACK_SIZE <= b || b + HART_STACK_SIZE <= a);
    assert_eq!(a, 0x100_0000 + HART_STACK_SIZE);
    assert_eq!(b, 0x110_0000 + HART_STACK_SIZE);
}

#[test]
fn start_harts_reports_an_exhausted_heap() {
    let mut heap = heap_over(0x10_0000, 0x10_0000);
    let mut mem = Memory::new();
    assert!(start_harts(&mut heap, &mut mem, 0, 2).is_none());
    assert_eq!(start_harts(&mut heap, &mut mem, 0, 1), Some(Vec::new()));
}

#[test]
fn wake_up_status_is_that_of_the_last_call() {
    assert_eq!(wake_up_status(&Vec::new()), Ok(()));
    assert_eq!(wake_up_status(&vec![(0, 0), (0, 0)]), Ok(()));
    assert_eq!(wake_up_status(&vec![(-3, 7), (0, 0)]), Ok(()));
    assert_eq!(wake_up_status(&vec![(0, 0), (-6, 1)]), Err((-6, 1)));
}

#[test]
fn hart_probe_counts_up_to_the_first_missing_hart() {
    let answers = [0usize, 0, 0, 3];
    let mut id = 0;
    let count = loop {
        match hart_probe_step(id, answers[id]) {
            HartProbe::Next(next) => id = next,
            HartProbe::Counted(n) => break n,
        }
    };
    assert_eq!(count, 3);
    assert_eq!(hart_probe_step(0, 1), HartProbe::Counted(0));
}

#[test]
fn sbi_results_land_in_a0_and_a1() {
    let mut v = trapped(10, 5, 0x10);
    record_sbi_result(&mut v, (-2i64) as u64, 7);
    assert_eq!(v.a0, (-2i64) as u64);
    assert_eq!(v.a1, 7);
    assert_eq!(v.a7, 0x10);
    assert_eq!(v.sepc, 0x8000_0100);
}

#[test]
fn start_harts_splits_a_larger_block_for_the_stacks() {
    // A region of 4 MiB goes on the list of 2 MiB blocks; that block holds
    // the stacks of two harts, not of three.
    let mut heap = heap_over(0x40_0000, 0x40_0000);
    assert_eq!(heap.free_list[21], 0x40_0000);
    let mut mem = Memory::new();
    let starts = start_harts(&mut heap, &mut mem, 0, 3).unwrap();
    assert_eq!(starts.len(), 2);
    let mut heap = heap_over(0x40_0000, 0x40_0000);
    let mut mem = Memory::new();
    assert!(start_harts(&mut heap, &mut mem, 0, 4).is_none());
}

#[test]
fn initialize_guests_names_each_vcpu_once() {
    let mut heap = heap_over(0x200_0000, 0x200_0000);
    let mut mem = Memory::new();
    let mut guests = vec![loadable_guest(1, 2), loadable_guest(2, 1)];
    guests[1].assigned_harts = vec![Some(1), None, Some(0)];
    let mut harts = vec![
        Hart { dedicated_to: vec![None, None], guests: vec![Some(0), Some(1)] },
        Hart { dedicated_to: vec![None], guests: vec![Some(1)] },
    ];
    assert_eq!(initialize_guests(&mut guests, &mut harts, &mut heap, &mut mem, 128), Ok(()));
    let mut named: Vec<VcpuRef> = Vec::new();
    for g in &guests {
        named.extend(g.vcpu_ptrs.iter().flatten().copied());
    }
    for h in &harts {
        named.extend(h.dedicated_to.iter().flatten().copied());
    }
    for (i, a) in named.iter().enumerate() {
        for b in &named[i + 1..] {
            assert_ne!(a, b);
        }
    }
    // Guest 0 fills both slots of hart 0; guest 1 fills the slot of hart 1
    // and finds no empty slot left at hart 0.
    assert_eq!(
        harts[0].dedicated_to,
        vec![Some(VcpuRef { guest: 0, slot: 0 }), Some(VcpuRef { guest: 0, slot: 1 })]
    );
    assert_eq!(harts[1].dedicated_to, vec![Some(VcpuRef { guest: 1, slot: 0 })]);
    assert_eq!(named.len(), 6);
    // Every vCPU named exists.
    for r in &named {
        assert!(guests[r.guest].vcpus[r.slot].is_some());
    }
}
