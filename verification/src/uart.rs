//! The 16550 UART at the console: its set-up and the transmit protocol.
//!
//! The driver's register accesses are values here: the set-up is the list of
//! register writes, in order; a byte is sent by waiting until the line status
//! register reports an empty transmitter holding register, then writing it.

use vstd::prelude::*;

verus! {

/// Physical address of the UART of QEMU's `virt` machine.
pub const QEMU_UART_ADDR: u64 = 0x1000_0000;

/// Clock of the UART, in Hz.
pub const UART_CLOCK_HZ: u32 = 3_686_400;

/// The console's baud rate.
pub const BAUD_RATE: u32 = 115_200;

/// Word length of 8 bits in LCR (and DLAB clear).
pub const UART_WORD_LENGTH_8: u8 = (1 << 0) | (1 << 1);

/// LSR bit: the transmitter holding register is empty.
pub const LSR_THR_EMPTY: u8 = 1 << 5;

/// Offset of the line status register.
pub const LSR_OFFSET: u64 = 5;

/// The console UART at a base address.
#[derive(Debug, Clone, Copy, PartialEq, Eq)]
pub struct Uart {
    pub base_addr: u64,
}

/// One write of a UART register: its address and the byte written.
#[derive(Debug, Clone, Copy, PartialEq, Eq)]
pub struct RegisterWrite {
    pub addr: u64,
    pub value: u8,
}

/// The baud-rate divisor: the clock over 16 times the baud rate.
pub open spec fn baud_divisor() -> int {
    UART_CLOCK_HZ as int / (16 * BAUD_RATE as int)
}

/// The writes that set the UART at `base` up: FIFOs on, the interrupt on an
/// empty transmit holding register enabled (bit 1 of the interrupt enable
/// register), the divisor latch opened and the divisor (low byte, high byte)
/// set, then 8-bit words with the latch closed.
pub open spec fn init_writes(base: u64) -> Seq<RegisterWrite> {
    seq![
        RegisterWrite { addr: (base + 2) as u64, value: 1 },
        RegisterWrite { addr: (base + 1) as u64, value: 2 },
        RegisterWrite { addr: (base + 3) as u64, value: 0x80 },
        RegisterWrite { addr: base, value: (baud_divisor() % 256) as u8 },
        RegisterWrite { addr: (base + 1) as u64, value: (baud_divisor() / 256) as u8 },
        RegisterWrite { addr: (base + 3) as u64, value: 3 },
    ]
}

impl Uart {
    /// The UART whose registers start at `base_addr`.
    pub fn new(base_addr: u64) -> (r: Uart)
        ensures
            r.base_addr == base_addr,
    {
        Uart { base_addr }
    }

    /// The register writes that set the UART up, in the order to make them.
    pub fn init(&self) -> (r: Vec<RegisterWrite>)
        requires
            self.base_addr <= u64::MAX - 5,
        ensures
            r@ == init_writes(self.base_addr),
    {
        let base = self.base_addr;
        let mut writes: Vec<RegisterWrite> = Vec::new();
        // Enable hardware FIFO buffers in FCR.
        writes.push(RegisterWrite { addr: base + 2, value: 1 << 0 });
        // Enable receiver buffer interrupts in IER.
        writes.push(RegisterWrite { addr: base + 1, value: 1 << 1 });
        // Set DLAB in LCR to enable access to DLL and DLM registers.
        writes.push(RegisterWrite { addr: base + 3, value: 1 << 7 });
        // Divisor = ( system_clock_speed ) / ( 16 * desired_baud_rate )
        let divisor: u32 = UART_CLOCK_HZ / (16 * BAUD_RATE);
        let divisor_least: u8 = (divisor & 0xff) as u8;
        let divisor_most: u8 = (divisor >> 8) as u8;
        proof {
            assert(divisor == 2);
            assert(divisor & 0xff == 2) by (bit_vector)
                requires
                    divisor == 2,
            ;
            assert(divisor >> 8 == 0) by (bit_vector)
                requires
                    divisor == 2,
            ;
        }
        // Set DLL and DLM.
        writes.push(RegisterWrite { addr: base, value: divisor_least });
        writes.push(RegisterWrite { addr: base + 1, value: divisor_most });
        // Set UART word length as 8 bits in LCR.
        // and unset DLAB to enable receiver and transmitter holding registers.
        writes.push(RegisterWrite { addr: base + 3, value: UART_WORD_LENGTH_8 });
        proof {
            assert(UART_WORD_LENGTH_8 == 3) by (bit_vector);
            assert((1u8 << 0u8) == 1 && (1u8 << 1u8) == 2 && (1u8 << 7u8) == 0x80) by (bit_vector);
            assert(baud_divisor() == 2);
            assert(writes@[0] == init_writes(base)[0]);
            assert(writes@[1] == init_writes(base)[1]);
            assert(writes@[2] == init_writes(base)[2]);
            assert(writes@[3] == init_writes(base)[3]);
            assert(writes@[4] == init_writes(base)[4]);
            assert(writes@[5] == init_writes(base)[5]);
            assert(writes@ =~= init_writes(base));
        }
        writes
    }

    /// The address of the line status register, read until the transmitter
    /// is ready.
    pub fn line_status_addr(&self) -> (r: u64)
        requires
            self.base_addr <= u64::MAX - 5,
        ensures
            r == self.base_addr + LSR_OFFSET,
    {
        self.base_addr + LSR_OFFSET
    }

    /// The transmitter holding register is empty in line status `lsr`.
    pub fn transmitter_ready(lsr: u8) -> (r: bool)
        ensures
            r == (lsr & LSR_THR_EMPTY != 0),
    {
        lsr & LSR_THR_EMPTY != 0
    }

    /// The write that sends `byte`, once the transmitter is ready.
    pub fn put(&mut self, byte: u8) -> (r: RegisterWrite)
        ensures
            r == (RegisterWrite { addr: old(self).base_addr, value: byte }),
            *final(self) == *old(self),
    {
        RegisterWrite { addr: self.base_addr, value: byte }
    }
}

} // verus!
