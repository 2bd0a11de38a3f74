//! Byte-addressed physical memory of the machine, little-endian.
//!
//! A byte that the hypervisor never wrote reads as zero, as RAM does when the
//! machine is started.

use std::collections::HashMap;
use vstd::prelude::*;

verus! {

broadcast use vstd::std_specs::hash::group_hash_axioms;

/// The machine's memory: the bytes written so far, by address.
pub struct Memory {
    pub bytes: HashMap<u64, u8>,
}

/// Little-endian value of the `n` bytes that start at `a` in `m`.
pub open spec fn le_value(m: Map<u64, u8>, a: int, n: nat) -> int
    decreases n,
{
    if n == 0 {
        0
    } else {
        byte_of(m, a) + 256 * le_value(m, a + 1, (n - 1) as nat)
    }
}

/// The byte at address `a` of `m` (zero where nothing was written).
pub open spec fn byte_of(m: Map<u64, u8>, a: int) -> u8 {
    if 0 <= a <= u64::MAX && m.contains_key(a as u64) {
        m[a as u64]
    } else {
        0
    }
}

/// The 64-bit little-endian word at address `a` of `m`.
pub open spec fn word_of(m: Map<u64, u8>, a: int) -> u64 {
    le_value(m, a, 8) as u64
}

/// `m` after the 8 bytes of `v` were stored at `a`, least significant first.
pub open spec fn store_word(m: Map<u64, u8>, a: int, v: u64) -> Map<u64, u8> {
    m.insert(a as u64, (v & 0xff) as u8)
        .insert((a + 1) as u64, ((v >> 8) & 0xff) as u8)
        .insert((a + 2) as u64, ((v >> 16) & 0xff) as u8)
        .insert((a + 3) as u64, ((v >> 24) & 0xff) as u8)
        .insert((a + 4) as u64, ((v >> 32) & 0xff) as u8)
        .insert((a + 5) as u64, ((v >> 40) & 0xff) as u8)
        .insert((a + 6) as u64, ((v >> 48) & 0xff) as u8)
        .insert((a + 7) as u64, ((v >> 56) & 0xff) as u8)
}

impl Memory {
    /// The bytes written so far, by address.
    pub open spec fn view(&self) -> Map<u64, u8> {
        self.bytes@
    }

    /// Memory in which nothing was written yet.
    pub fn new() -> (r: Memory)
        ensures
            r@ == Map::<u64, u8>::empty(),
    {
        Memory { bytes: HashMap::new() }
    }

    /// Reads the byte at `addr`.
    pub fn read_u8(&self, addr: u64) -> (r: u8)
        ensures
            r == byte_of(self@, addr as int),
    {
        match self.bytes.get(&addr) {
            Some(b) => *b,
            None => 0,
        }
    }

    /// Stores `value` at `addr`.
    pub fn write_u8(&mut self, addr: u64, value: u8)
        ensures
            final(self)@ == old(self)@.insert(addr, value),
    {
        self.bytes.insert(addr, value);
    }

    /// Reads the little-endian 64-bit word that starts at `addr`.
    pub fn read_u64(&self, addr: u64) -> (r: u64)
        requires
            addr <= u64::MAX - 8,
        ensures
            r == word_of(self@, addr as int),
    {
        let b0 = self.read_u8(addr) as u64;
        let b1 = self.read_u8(addr + 1) as u64;
        let b2 = self.read_u8(addr + 2) as u64;
        let b3 = self.read_u8(addr + 3) as u64;
        let b4 = self.read_u8(addr + 4) as u64;
        let b5 = self.read_u8(addr + 5) as u64;
        let b6 = self.read_u8(addr + 6) as u64;
        let b7 = self.read_u8(addr + 7) as u64;
        proof {
            reveal_with_fuel(le_value, 9);
            assert(b0 < 256 && b1 < 256 && b2 < 256 && b3 < 256 && b4 < 256 && b5 < 256 && b6 < 256
                && b7 < 256);
            assert(b0 | b1 << 8 | b2 << 16 | b3 << 24 | b4 << 32 | b5 << 40 | b6 << 48 | b7 << 56
                == b0 + 256 * (b1 + 256 * (b2 + 256 * (b3 + 256 * (b4 + 256 * (b5 + 256 * (b6
                + 256 * b7))))))) by (bit_vector)
                requires
                    b0 < 256 && b1 < 256 && b2 < 256 && b3 < 256 && b4 < 256 && b5 < 256 && b6
                        < 256 && b7 < 256,
            ;
        }
        b0 | b1 << 8 | b2 << 16 | b3 << 24 | b4 << 32 | b5 << 40 | b6 << 48 | b7 << 56
    }

    /// Stores the 64-bit `value` at `addr`, least significant byte first.
    pub fn write_u64(&mut self, addr: u64, value: u64)
        requires
            addr <= u64::MAX - 8,
        ensures
            final(self)@ == store_word(old(self)@, addr as int, value),
    {
        self.write_u8(addr, (value & 0xff) as u8);
        self.write_u8(addr + 1, ((value >> 8) & 0xff) as u8);
        self.write_u8(addr + 2, ((value >> 16) & 0xff) as u8);
        self.write_u8(addr + 3, ((value >> 24) & 0xff) as u8);
        self.write_u8(addr + 4, ((value >> 32) & 0xff) as u8);
        self.write_u8(addr + 5, ((value >> 40) & 0xff) as u8);
        self.write_u8(addr + 6, ((value >> 48) & 0xff) as u8);
        self.write_u8(addr + 7, ((value >> 56) & 0xff) as u8);
    }
}

/// A word stored at `a` reads back as the value stored; every byte outside
/// `a .. a + 8` is unchanged.
pub proof fn lemma_store_word(m: Map<u64, u8>, a: int, v: u64)
    requires
        0 <= a <= u64::MAX - 8,
    ensures
        word_of(store_word(m, a, v), a) == v,
        forall|b: int|
            !(a <= b < a + 8) ==> #[trigger] byte_of(store_word(m, a, v), b) == byte_of(m, b),
{
    let m2 = store_word(m, a, v);
    reveal_with_fuel(le_value, 9);
    assert(byte_of(m2, a) == (v & 0xff) as u8);
    assert(byte_of(m2, a + 1) == ((v >> 8) & 0xff) as u8);
    assert(byte_of(m2, a + 2) == ((v >> 16) & 0xff) as u8);
    assert(byte_of(m2, a + 3) == ((v >> 24) & 0xff) as u8);
    assert(byte_of(m2, a + 4) == ((v >> 32) & 0xff) as u8);
    assert(byte_of(m2, a + 5) == ((v >> 40) & 0xff) as u8);
    assert(byte_of(m2, a + 6) == ((v >> 48) & 0xff) as u8);
    assert(byte_of(m2, a + 7) == ((v >> 56) & 0xff) as u8);
    assert((v & 0xff) as u8 + 256 * (((v >> 8) & 0xff) as u8 + 256 * (((v >> 16) & 0xff) as u8
        + 256 * (((v >> 24) & 0xff) as u8 + 256 * (((v >> 32) & 0xff) as u8 + 256 * (((v >> 40)
        & 0xff) as u8 + 256 * (((v >> 48) & 0xff) as u8 + 256 * ((v >> 56) & 0xff) as u8))))))
        == v) by (bit_vector);
}

/// Storing the zero word clears the 8 bytes at `a`.
pub proof fn lemma_store_zero_word(m: Map<u64, u8>, a: int)
    requires
        0 <= a <= u64::MAX - 8,
    ensures
        forall|b: int| a <= b < a + 8 ==> #[trigger] byte_of(store_word(m, a, 0), b) == 0,
        forall|b: int|
            !(a <= b < a + 8) ==> #[trigger] byte_of(store_word(m, a, 0), b) == byte_of(m, b),
{
    lemma_store_word(m, a, 0);
    assert((0u64 & 0xff) as u8 == 0 && ((0u64 >> 8) & 0xff) as u8 == 0 && ((0u64 >> 16) & 0xff) as u8
        == 0 && ((0u64 >> 24) & 0xff) as u8 == 0 && ((0u64 >> 32) & 0xff) as u8 == 0 && ((0u64
        >> 40) & 0xff) as u8 == 0 && ((0u64 >> 48) & 0xff) as u8 == 0 && ((0u64 >> 56) & 0xff) as u8
        == 0) by (bit_vector);
}

/// A word whose 8 bytes read zero is zero.
pub proof fn lemma_zero_word(m: Map<u64, u8>, a: int)
    requires
        forall|b: int| a <= b < a + 8 ==> #[trigger] byte_of(m, b) == 0,
    ensures
        word_of(m, a) == 0,
{
    reveal_with_fuel(le_value, 9);
    assert(byte_of(m, a) == 0);
    assert(byte_of(m, a + 1) == 0);
    assert(byte_of(m, a + 2) == 0);
    assert(byte_of(m, a + 3) == 0);
    assert(byte_of(m, a + 4) == 0);
    assert(byte_of(m, a + 5) == 0);
    assert(byte_of(m, a + 6) == 0);
    assert(byte_of(m, a + 7) == 0);
}

} // verus!
