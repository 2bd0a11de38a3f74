//! A verified model of the Hypersieve RISC-V type 1 hypervisor: its buddy heap
//! allocator, the guest (G-stage) page tables, trap decoding, vCPU set-up,
//! the scheduling of guests onto harts, the UART driver's register protocol and
//! the device-tree configuration reader.
//!
//! Physical memory is modelled by [`memory::Memory`]; raw pointers of the
//! hypervisor are plain addresses into it.

pub mod allocator;
pub mod dts_parser;
pub mod guest;
pub mod guest_table;
pub mod memory;
pub mod multihart;
pub mod trap;
pub mod uart;
pub mod vcpu;

use vstd::prelude::*;
