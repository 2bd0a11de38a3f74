//! Decoding of the traps that guests cause, and the hypervisor's answer to
//! each.

use crate::vcpu::Vcpu;
use vstd::prelude::*;

verus! {

/// Width in bits of the supervisor registers.
pub const SXLEN: u8 = 64;

/// Bits 9 and 10 of `sstatus`/`vsstatus`: the vector unit's state (VS).
pub const STATUS_VS_MASK: u64 = (1 << 9) | (1 << 10);

/// The VS field's value for a vector unit whose registers were written.
pub const VS_DIRTY: u64 = 3;

/// The VS field's value for a vector unit whose registers were saved.
pub const VS_CLEAN: u64 = 2;

/// Exception code of the virtual supervisor timer interrupt.
pub const VS_TIMER_INTERRUPT: u64 = 6;

/// Exception code of an environment call from VS mode.
pub const VS_ECALL: u64 = 10;

/// SBI extension id of the base extension.
pub const SBI_BASE_EID: u64 = 0x10;

/// SBI extension id of the legacy console putchar call.
pub const SBI_LEGACY_PUTCHAR_EID: u64 = 0x01;

/// The interrupt bit of `scause`.
pub open spec fn interrupt_bit_of(scause: u64) -> u64 {
    scause >> 63
}

/// The exception code of `scause`: every bit but the interrupt bit.
pub open spec fn exception_code_of(scause: u64) -> u64 {
    scause & !(1u64 << 63)
}

/// The VS field of a status register.
pub open spec fn vs_field(status: u64) -> u64 {
    (status & STATUS_VS_MASK) >> 9
}

/// The status register `status` with its VS field set to Clean.
pub open spec fn vs_cleaned(status: u64) -> u64 {
    (status & !STATUS_VS_MASK) | (VS_CLEAN << 9)
}

/// Splits `scause` into its interrupt bit and its exception code.
pub fn decode_scause(scause: u64) -> (r: (u64, u64))
    ensures
        r == (interrupt_bit_of(scause), exception_code_of(scause)),
{
    let interrupt_bit = scause >> ((SXLEN - 1) as u64);
    let exception_code: u64 = scause & !(1u64 << 63);
    (interrupt_bit, exception_code)
}

/// `scause` is the interrupt bit above the exception code, and the
/// interrupt bit is 0 or 1.
pub proof fn lemma_scause_split(scause: u64)
    ensures
        interrupt_bit_of(scause) <= 1,
        scause == (interrupt_bit_of(scause) << 63) | exception_code_of(scause),
        exception_code_of(scause) < 0x8000_0000_0000_0000,
{
    assert(scause >> 63 <= 1) by (bit_vector);
    assert(scause == ((scause >> 63) << 63) | (scause & !(1u64 << 63))) by (bit_vector);
    assert(scause & !(1u64 << 63) < 0x8000_0000_0000_0000) by (bit_vector);
}

/// The name of a trap cause.
pub open spec fn scause_name(interrupt_bit: u64, exception_code: u64) -> Seq<char> {
    if interrupt_bit == 1 {
        if exception_code == 1 {
            "Supervisor software interrupt"@
        } else if exception_code == 2 {
            "Virtual supervisor software interrupt"@
        } else if exception_code == 3 {
            "Machine software interrupt"@
        } else if exception_code == 5 {
            "Supervisor timer interrupt"@
        } else if exception_code == 6 {
            "Virtual supervisor timer interrupt"@
        } else if exception_code == 7 {
            "Machine timer interrupt"@
        } else if exception_code == 9 {
            "Supervisor external interrupt"@
        } else if exception_code == 10 {
            "Virtual supervisor external interrupt"@
        } else if exception_code == 11 {
            "Machine external interrupt"@
        } else if exception_code == 12 {
            "Supervisor guest external interrupt"@
        } else if exception_code == 13 {
            "Counter-overflow interrupt"@
        } else {
            "Unhandable exception code"@
        }
    } else {
        if exception_code == 0 {
            "Instruction address misaligned"@
        } else if exception_code == 1 {
            "Instruction access fault"@
        } else if exception_code == 2 {
            "Illegal instruction"@
        } else if exception_code == 3 {
            "Breakpoint"@
        } else if exception_code == 4 {
            "Load address misaligned"@
        } else if exception_code == 5 {
            "Load access fault"@
        } else if exception_code == 6 {
            "Store/AMO address misaligned"@
        } else if exception_code == 7 {
            "Store/AMO access fault"@
        } else if exception_code == 8 {
            "Environment call from U-mode or VU-mode"@
        } else if exception_code == 9 {
            "Environment call from HS-mode"@
        } else if exception_code == 10 {
            "Environment call from VS-mode"@
        } else if exception_code == 11 {
            "Environment call from M-mode"@
        } else if exception_code == 12 {
            "Instruction page fault"@
        } else if exception_code == 13 {
            "Load page fault"@
        } else if exception_code == 15 {
            "Store/AMO page fault"@
        } else if exception_code == 16 {
            "Double trap"@
        } else if exception_code == 18 {
            "Software check"@
        } else if exception_code == 19 {
            "Hardware error"@
        } else if exception_code == 20 {
            "Instruction guest-page fault"@
        } else if exception_code == 21 {
            "Load guest-page fault"@
        } else if exception_code == 22 {
            "Virtual instruction"@
        } else if exception_code == 23 {
            "Store/AMO guest-page fault"@
        } else {
            "Unhandable exception code"@
        }
    }
}

/// The name of the trap with `interrupt_bit` and `exception_code`.
pub fn scause_description(interrupt_bit: u64, exception_code: u64) -> (r: &'static str)
    ensures
        r@ == scause_name(interrupt_bit, exception_code),
{
    if interrupt_bit == 1 {
        match exception_code {
            1 => "Supervisor software interrupt",
            2 => "Virtual supervisor software interrupt",
            3 => "Machine software interrupt",
            5 => "Supervisor timer interrupt",
            6 => "Virtual supervisor timer interrupt",
            7 => "Machine timer interrupt",
            9 => "Supervisor external interrupt",
            10 => "Virtual supervisor external interrupt",
            11 => "Machine external interrupt",
            12 => "Supervisor guest external interrupt",
            13 => "Counter-overflow interrupt",
            _ => "Unhandable exception code",
        }
    } else {
        match exception_code {
            0 => "Instruction address misaligned",
            1 => "Instruction access fault",
            2 => "Illegal instruction",
            3 => "Breakpoint",
            4 => "Load address misaligned",
            5 => "Load access fault",
            6 => "Store/AMO address misaligned",
            7 => "Store/AMO access fault",
            8 => "Environment call from U-mode or VU-mode",
            9 => "Environment call from HS-mode",
            10 => "Environment call from VS-mode",
            11 => "Environment call from M-mode",
            12 => "Instruction page fault",
            13 => "Load page fault",
            15 => "Store/AMO page fault",
            16 => "Double trap",
            18 => "Software check",
            19 => "Hardware error",
            20 => "Instruction guest-page fault",
            21 => "Load guest-page fault",
            22 => "Virtual instruction",
            23 => "Store/AMO guest-page fault",
            _ => "Unhandable exception code",
        }
    }
}

/// What the hypervisor does about a trap.
#[derive(Debug, Clone, Copy, PartialEq, Eq)]
pub enum TrapAction {
    /// The guest's time slice ended: give the hart to the next guest.
    RunNextGuest,
    /// An SBI base-extension call: make the same call (with the guest's `a0`,
    /// `a1`, `a6`, `a7`), hand `a0` and `a1` back to the guest, resume it.
    ForwardBaseEcall,
    /// A legacy console putchar: print `character`, resume the guest.
    LegacyPutchar { character: u64 },
    /// An SBI call of an extension that is not served: a fatal error.
    UnsupportedEcall { eid: u64 },
    /// Any other trap: report it and stop.
    Unhandled { interrupt_bit: u64, exception_code: u64 },
}

/// The answer to a trap, and whether the vector registers must be saved first.
#[derive(Debug, Clone, Copy, PartialEq, Eq)]
pub struct TrapOutcome {
    pub save_vector_registers: bool,
    pub action: TrapAction,
}

/// The action for a trap with `scause` taken while the guest's `a0` and `a7`
/// held `a0` and `a7`.
pub open spec fn trap_action(scause: u64, a0: u64, a7: u64) -> TrapAction {
    let ib = interrupt_bit_of(scause);
    let code = exception_code_of(scause);
    if code == VS_TIMER_INTERRUPT && ib == 1 {
        TrapAction::RunNextGuest
    } else if code == VS_ECALL && ib == 0 {
        if a7 == SBI_BASE_EID {
            TrapAction::ForwardBaseEcall
        } else if a7 == SBI_LEGACY_PUTCHAR_EID {
            TrapAction::LegacyPutchar { character: a0 }
        } else {
            TrapAction::UnsupportedEcall { eid: a7 }
        }
    } else {
        TrapAction::Unhandled { interrupt_bit: ib, exception_code: code }
    }
}

/// The action resumes the guest after its `ecall` instruction.
pub open spec fn resumes_after_ecall(a: TrapAction) -> bool {
    a is ForwardBaseEcall || a is LegacyPutchar
}

/// What the hypervisor does about a trap, by the bits of `scause` (bit 63 is
/// the interrupt bit, the others the exception code) and the guest's `a7`:
/// the guest's time slice ends only on the virtual supervisor timer
/// interrupt (`scause == 2^63 + 6`); an environment call from VS-mode (an
/// exception, `scause == 10`) is served for the SBI base extension
/// (`a7 == 0x10`) and the legacy putchar (`a7 == 1`) and refused for any
/// other extension; every other trap is unhandled and reported with its
/// interrupt bit and code.  In particular an exception with code 6 (a
/// misaligned store) is no timer tick.
pub proof fn lemma_trap_action_cases(scause: u64, a0: u64, a7: u64)
    ensures
        trap_action(scause, a0, a7) is RunNextGuest <==> scause == 0x8000_0000_0000_0006,
        scause == 10 && a7 == 0x10 ==> trap_action(scause, a0, a7) == TrapAction::ForwardBaseEcall,
        scause == 10 && a7 == 1 ==> trap_action(scause, a0, a7) == (TrapAction::LegacyPutchar { character: a0 }),
        scause == 10 && a7 != 0x10 && a7 != 1 ==> trap_action(scause, a0, a7) == (TrapAction::UnsupportedEcall { eid: a7 }),
        scause != 10 && scause != 0x8000_0000_0000_0006 ==> trap_action(scause, a0, a7) == (TrapAction::Unhandled {
            interrupt_bit: scause >> 63,
            exception_code: scause & 0x7fff_ffff_ffff_ffff,
        }),
{
    assert((scause >> 63 == 1 && scause & !(1u64 << 63) == 6) <==> scause == 0x8000_0000_0000_0006) by (bit_vector);
    assert((scause >> 63 == 0 && scause & !(1u64 << 63) == 10) <==> scause == 10) by (bit_vector);
    assert(scause & !(1u64 << 63) == scause & 0x7fff_ffff_ffff_ffff) by (bit_vector);
}

/// The hypervisor serves traps with this action; for the others it stops.
pub open spec fn served(a: TrapAction) -> bool {
    a is RunNextGuest || a is ForwardBaseEcall || a is LegacyPutchar
}

/// The action for a trap with `scause` taken while the guest's `a0` and `a7`
/// held `a0` and `a7`.
pub fn trap_action_of(scause: u64, a0: u64, a7: u64) -> (r: TrapAction)
    ensures
        r == trap_action(scause, a0, a7),
        r is RunNextGuest <==> scause == 0x8000_0000_0000_0006,
{
    proof {
        lemma_trap_action_cases(scause, a0, a7);
    }
    // Extract type of trap (exception/interrupt).
    let (interrupt_bit, exception_code) = decode_scause(scause);
    if exception_code == VS_TIMER_INTERRUPT && interrupt_bit == 1 {
        TrapAction::RunNextGuest
    } else if exception_code == VS_ECALL && interrupt_bit == 0 {
        if a7 == SBI_BASE_EID {
            TrapAction::ForwardBaseEcall
        } else if a7 == SBI_LEGACY_PUTCHAR_EID {
            TrapAction::LegacyPutchar { character: a0 }
        } else {
            TrapAction::UnsupportedEcall { eid: a7 }
        }
    } else {
        TrapAction::Unhandled { interrupt_bit, exception_code }
    }
}

/// The answer to the trap that `vcpu` took, one that the hypervisor serves
/// ([`served`]; for the others it stops).  A vector unit left dirty is
/// marked clean (its registers are to be saved first); an ecall moves
/// `sepc` past the `ecall` instruction.
pub fn handle_trap(vcpu: &mut Vcpu) -> (r: TrapOutcome)
    requires
        served(trap_action(old(vcpu).scause, old(vcpu).a0, old(vcpu).a7)),
        resumes_after_ecall(trap_action(old(vcpu).scause, old(vcpu).a0, old(vcpu).a7))
            ==> old(vcpu).sepc <= u64::MAX - 4,
    ensures
        r.action == trap_action(old(vcpu).scause, old(vcpu).a0, old(vcpu).a7),
        r.save_vector_registers == (vs_field(old(vcpu).vsstatus) == VS_DIRTY),
        final(vcpu).vsstatus == if vs_field(old(vcpu).vsstatus) == VS_DIRTY {
            vs_cleaned(old(vcpu).vsstatus)
        } else {
            old(vcpu).vsstatus
        },
        final(vcpu).sepc == if resumes_after_ecall(r.action) {
            (old(vcpu).sepc + 4) as u64
        } else {
            old(vcpu).sepc
        },
        *final(vcpu) == (Vcpu { vsstatus: final(vcpu).vsstatus, sepc: final(vcpu).sepc, ..*old(vcpu) }),
{
    let vsstatus = vcpu.vsstatus;
    // Save vector registers if vector extension turned on.
    let vsstatus_vs = (vsstatus & STATUS_VS_MASK) >> 9;
    let save = vsstatus_vs == VS_DIRTY;
    if save {
        vcpu.vsstatus = vcpu.vsstatus & !STATUS_VS_MASK;
        vcpu.vsstatus = vcpu.vsstatus | (VS_CLEAN << 9);
    }
    let action = trap_action_of(vcpu.scause, vcpu.a0, vcpu.a7);
    match action {
        TrapAction::ForwardBaseEcall | TrapAction::LegacyPutchar { .. } => {
            // The ecall is served: resume after it.
            vcpu.sepc = vcpu.sepc + 4;
        },
        _ => {},
    }
    TrapOutcome { save_vector_registers: save, action }
}

/// Hands the result of a forwarded SBI call back to the guest: the error code
/// in `a0` and the value in `a1`.
pub fn record_sbi_result(vcpu: &mut Vcpu, error: u64, value: u64)
    ensures
        *final(vcpu) == (Vcpu { a0: error, a1: value, ..*old(vcpu) }),
{
    vcpu.a0 = error;
    vcpu.a1 = value;
}

/// Cleaning the VS field sets it to Clean and keeps every other bit.
pub proof fn lemma_vs_cleaned(status: u64)
    ensures
        vs_field(vs_cleaned(status)) == VS_CLEAN,
        vs_cleaned(status) & !STATUS_VS_MASK == status & !STATUS_VS_MASK,
{
    assert((((status & !((1u64 << 9) | (1u64 << 10))) | (2u64 << 9)) & ((1u64 << 9) | (1u64 << 10)))
        >> 9 == 2) by (bit_vector);
    assert(((status & !((1u64 << 9) | (1u64 << 10))) | (2u64 << 9)) & !((1u64 << 9) | (1u64 << 10))
        == status & !((1u64 << 9) | (1u64 << 10))) by (bit_vector);
    assert(STATUS_VS_MASK == (1u64 << 9) | (1u64 << 10)) by (bit_vector);
}

} // verus!
