# Hypersieve

A bare-metal type 1 hypervisor for RISC-V (H extension), whose logic is
written and proved in Verus.

## Layout

- `src/` — the verified library:
  - `memory` — physical memory as a byte map, little-endian words;
  - `allocator` — the buddy heap (set-up, allocation, freeing with buddy
    merging, zeroed page allocation);
  - `guest_table` — G-stage (Sv48x4) page tables: entries, table walks,
    mapping a guest page, `hgatp`;
  - `vcpu` — the vCPU register file, its set-up and the switch of a hart to
    the next guest;
  - `guest` — guests, their vCPU pools and the claims of harts on them,
    loading of guest images, round-robin search for a guest with room;
  - `multihart` — harts, their set-up, their stacks and their first guest;
  - `trap` — decoding of `scause` and the answer to each trap;
  - `uart` — the 16550 console's register protocol;
  - `dts_parser` — the configuration read from a device tree blob (through
    the `fdt` crate).
- `tests/` — tests of the library on concrete values.
- `app/` — the program around the library: it compiles `config.dts` with
  `dtc`, reads the configuration, and runs the boot and scheduling on the
  library's machine model; `app/riscv.rs` holds the hardware side (CSR
  access, SBI calls, the trap vector and guest entry in assembly) for a
  RISC-V target.

The contracts state what each operation does on the model: for instance, that
a mapped guest page translates to the host page it was mapped to, that the
heap hands out aligned blocks that were free, and that the configuration
read from a device tree blob has harts that list exactly the guests pinned
to them.
