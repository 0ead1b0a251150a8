//! Address-decomposition math for the two-level shadow table.
//!
//! The shadow table records one provenance value per word-aligned tracked
//! address.  A second-level chunk covers a fixed span of address space;
//! the first level selects the chunk, the second level the slot within
//! it.  Everything here is stateless arithmetic on raw addresses.

use vstd::prelude::*;

verus! {

/// Significant address bits.  Common 64-bit targets address through the
/// low 48 bits of a pointer; this library fixes that geometry.
pub const SIG_BITS: usize = 48;

/// Bytes of program memory per tracked word: provenance is recorded for
/// word-aligned, pointer-sized locations only.
pub const PTR_BYTES: usize = 8;

/// Bytes of program memory covered by one second-level chunk.
pub const L2_CHUNK_BYTES: usize = 65536;

/// Slots in one second-level chunk: one per tracked word of its span.
pub const L2_WIDTH: usize = 8192;

/// One past the highest address the table accepts: 1 << SIG_BITS.
/// Callers must not present addresses at or above this bound.
pub const ADDR_BOUND: u64 = 0x1000000000000;

/// Whether an address stays below the significant-bit bound.
pub open spec fn in_bound(addr: usize) -> bool {
    (addr as int) < (ADDR_BOUND as int)
}

/// Number of the tracked word holding `addr`.
pub open spec fn word_of(addr: usize) -> int {
    addr as int / (PTR_BYTES as int)
}

/// First-level index: which chunk covers `addr`.
pub open spec fn l1_of(addr: usize) -> int {
    addr as int / (L2_CHUNK_BYTES as int)
}

/// Second-level index: which slot within its chunk covers `addr`.
pub open spec fn l2_of(addr: usize) -> int {
    (addr as int % (L2_CHUNK_BYTES as int)) / (PTR_BYTES as int)
}

/// First-level index of `addr`, as the table computes it.
pub fn l1_index(addr: usize) -> (r: usize)
    ensures
        r as int == l1_of(addr),
{
    addr / L2_CHUNK_BYTES
}

/// Second-level index of `addr`, as the table computes it.
pub fn l2_index(addr: usize) -> (r: usize)
    ensures
        r as int == l2_of(addr),
        r < L2_WIDTH,
{
    (addr % L2_CHUNK_BYTES) / PTR_BYTES
}

/// A tracked word's number decomposes exactly into its chunk index and
/// its slot within the chunk: the pair `(l1, l2)` and the word number
/// determine each other.
pub proof fn lemma_slot_identity(addr: usize)
    ensures
        word_of(addr) == l1_of(addr) * (L2_WIDTH as int) + l2_of(addr),
        l1_of(addr) == word_of(addr) / (L2_WIDTH as int),
        l2_of(addr) == word_of(addr) % (L2_WIDTH as int),
{
    let a = addr as int;
    vstd::arithmetic::div_mod::lemma_mod_breakdown(a, 8, 8192);
    assert(a % 65536 == 8 * ((a / 8) % 8192) + a % 8);
    vstd::arithmetic::div_mod::lemma_div_multiples_vanish_fancy((a / 8) % 8192, a % 8, 8);
    assert(l2_of(addr) == (a / 8) % 8192);
    vstd::arithmetic::div_mod::lemma_div_denominator(a, 8, 8192);
    assert(l1_of(addr) == (a / 8) / 8192);
    vstd::arithmetic::div_mod::lemma_fundamental_div_mod(a / 8, 8192);
}

/// Two addresses within the same tracked word always resolve to the
/// same slot of the same chunk.
pub proof fn lemma_same_word_same_slot(a1: usize, a2: usize)
    requires
        word_of(a1) == word_of(a2),
    ensures
        l1_of(a1) == l1_of(a2),
        l2_of(a1) == l2_of(a2),
{
    lemma_slot_identity(a1);
    lemma_slot_identity(a2);
}

/// Addresses whose chunks differ never share a tracked word, so they
/// never alias in shadow storage.
pub proof fn lemma_distinct_chunks_never_alias(a1: usize, a2: usize)
    requires
        l1_of(a1) != l1_of(a2),
    ensures
        word_of(a1) != word_of(a2),
{
    lemma_slot_identity(a1);
    lemma_slot_identity(a2);
}

} // verus!
