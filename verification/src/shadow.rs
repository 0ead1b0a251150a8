//! Sparse shadow memory: an address-indexed two-level table giving
//! amortized constant-time access to the provenance currently associated
//! with any tracked memory location, without pre-allocating storage for
//! the whole address space.
//!
//! The first level maps a chunk index to a lazily materialized
//! second-level chunk; one chunk covers `L2_CHUNK_BYTES` of address
//! space with one slot per word-aligned location.  An absent chunk
//! means every slot it would hold still carries the "no provenance"
//! default.  A slot is overwritten, never removed; there is no explicit
//! delete.

use std::collections::HashMap;
use vstd::prelude::*;

use crate::geometry::in_bound;
use crate::geometry::l1_index;
use crate::geometry::l1_of;
use crate::geometry::l2_index;
use crate::geometry::l2_of;
use crate::geometry::lemma_slot_identity;
use crate::geometry::word_of;
use crate::geometry::L2_WIDTH;

verus! {

/// Values a shadow slot can hold.  A provenance value is plain data:
/// copyable, with a distinguished "no provenance" default that an
/// untouched slot denotes.
pub trait Provenance: Copy + Sized {
    /// The "no provenance" default.
    spec fn no_prov_spec() -> Self;

    /// Executable form of the default.
    fn no_provenance() -> (r: Self)
        ensures
            r == Self::no_prov_spec(),
    ;
}

impl Provenance for u8 {
    open spec fn no_prov_spec() -> u8 {
        0
    }

    fn no_provenance() -> u8 {
        0
    }
}

/// A second-level chunk: one slot per tracked word of its span.
pub struct L2<T: Provenance> {
    slots: Vec<T>,
}

impl<T: Provenance> L2<T> {
    pub closed spec fn slot(self, k: int) -> T {
        self.slots[k]
    }

    pub closed spec fn wf(self) -> bool {
        self.slots.len() == L2_WIDTH
    }

    /// A fresh chunk, every slot holding the default.
    fn new() -> (r: Self)
        ensures
            r.wf(),
            forall|k: int| 0 <= k < L2_WIDTH ==> r.slot(k) == T::no_prov_spec(),
    {
        let mut slots: Vec<T> = Vec::new();
        let mut i: usize = 0;
        while i < L2_WIDTH
            invariant
                i <= L2_WIDTH,
                slots.len() == i,
                forall|k: int| 0 <= k < i ==> slots[k] == T::no_prov_spec(),
            decreases L2_WIDTH - i,
        {
            slots.push(T::no_provenance());
            i = i + 1;
        }
        L2 { slots }
    }

    fn lookup(&self, index: usize) -> (r: T)
        requires
            self.wf(),
            index < L2_WIDTH,
        ensures
            r == self.slot(index as int),
    {
        self.slots[index]
    }

    fn store(&mut self, index: usize, v: T)
        requires
            old(self).wf(),
            index < L2_WIDTH,
        ensures
            final(self).wf(),
            final(self).slot(index as int) == v,
            forall|k: int|
                0 <= k < L2_WIDTH && k != index as int ==> final(self).slot(k) == old(self).slot(k),
    {
        self.slots.set(index, v);
    }
}

/// The first level: chunk index to chunk, chunks materialized on first
/// touch.
pub struct L1<T: Provenance> {
    chunks: HashMap<u64, L2<T>>,
}

impl<T: Provenance> L1<T> {
    pub closed spec fn chunk_map(self) -> Map<u64, L2<T>> {
        self.chunks@
    }

    pub closed spec fn wf(self) -> bool {
        forall|k: u64| self.chunks@.contains_key(k) ==> (#[trigger] self.chunks@[k]).wf()
    }

    /// No chunk was ever materialized.
    pub open spec fn untouched(self) -> bool {
        self.chunk_map() == Map::<u64, L2<T>>::empty()
    }

    /// The provenance currently recorded for the tracked word holding
    /// `addr`: the slot's content where the chunk exists, the default
    /// everywhere else.
    pub open spec fn value_at(self, addr: usize) -> T {
        if self.chunk_map().contains_key(l1_of(addr) as u64) {
            self.chunk_map()[l1_of(addr) as u64].slot(l2_of(addr))
        } else {
            T::no_prov_spec()
        }
    }

    fn new() -> (r: Self)
        ensures
            r.wf(),
            r.untouched(),
    {
        L1 { chunks: HashMap::new() }
    }

    fn lookup(&self, addr: usize) -> (r: T)
        requires
            self.wf(),
            in_bound(addr),
        ensures
            r == self.value_at(addr),
    {
        let key: u64 = l1_index(addr) as u64;
        match self.chunks.get(&key) {
            Some(chunk) => chunk.lookup(l2_index(addr)),
            None => T::no_provenance(),
        }
    }

    fn store(&mut self, addr: usize, v: T)
        requires
            old(self).wf(),
            in_bound(addr),
        ensures
            final(self).wf(),
            forall|a2: usize|
                #[trigger] final(self).value_at(a2) == if word_of(a2) == word_of(addr) {
                    v
                } else {
                    old(self).value_at(a2)
                },
    {
        let ghost pre = *self;
        let key: u64 = l1_index(addr) as u64;
        let l2i = l2_index(addr);
        let mut chunk = match self.chunks.remove(&key) {
            Some(c) => c,
            None => L2::new(),
        };
        proof {
            assert(pre.chunks@.contains_key(key) ==> chunk == pre.chunks@[key]);
        }
        chunk.store(l2i, v);
        self.chunks.insert(key, chunk);
        proof {
            assert(self.chunks@ == pre.chunks@.remove(key).insert(key, chunk));
            assert forall|a2: usize| #[trigger] self.value_at(a2) == (if word_of(a2) == word_of(
                addr,
            ) {
                v
            } else {
                pre.value_at(a2)
            }) by {
                lemma_slot_identity(addr);
                lemma_slot_identity(a2);
                let k2 = l1_of(a2) as u64;
                if k2 == key {
                    assert(l1_of(a2) == l1_of(addr));
                    assert(self.chunks@.contains_key(k2));
                    assert(self.chunks@[k2] == chunk);
                    if l2_of(a2) == l2i as int {
                        assert(word_of(a2) == word_of(addr));
                        assert(self.value_at(a2) == v);
                    } else {
                        assert(word_of(a2) != word_of(addr));
                        if pre.chunks@.contains_key(key) {
                            assert(self.value_at(a2) == pre.value_at(a2));
                        } else {
                            assert(chunk.slot(l2_of(a2)) == T::no_prov_spec());
                            assert(self.value_at(a2) == pre.value_at(a2));
                        }
                    }
                } else {
                    assert(word_of(a2) != word_of(addr));
                    assert(self.chunks@.contains_key(k2) == pre.chunks@.contains_key(k2));
                    if pre.chunks@.contains_key(k2) {
                        assert(self.chunks@[k2] == pre.chunks@[k2]);
                    }
                    assert(self.value_at(a2) == pre.value_at(a2));
                }
            }
        }
    }
}

/// The process-wide shadow table: a thin owner of the two-level map.
pub struct ShadowHeap<T: Provenance> {
    l1: L1<T>,
}

impl<T: Provenance> ShadowHeap<T> {
    pub closed spec fn wf(self) -> bool {
        self.l1.wf()
    }

    /// No slot was ever written.
    pub closed spec fn untouched(self) -> bool {
        self.l1.untouched()
    }

    /// The provenance currently recorded for the tracked word holding
    /// `addr`.
    pub closed spec fn value_at(self, addr: usize) -> T {
        self.l1.value_at(addr)
    }

    /// Reads the slot covering `addr`: the default until the slot's
    /// word is first written, afterwards exactly the last value written
    /// to that word.
    pub fn load(&self, addr: usize) -> (r: T)
        requires
            self.wf(),
            in_bound(addr),
        ensures
            r == self.value_at(addr),
    {
        self.l1.lookup(addr)
    }

    /// Overwrites the slot covering `addr`, materializing its chunk on
    /// first touch.  Exactly the addresses of the same tracked word see
    /// the new value; every other address keeps its old one.
    pub fn store(&mut self, addr: usize, v: T)
        requires
            old(self).wf(),
            in_bound(addr),
        ensures
            final(self).wf(),
            forall|a2: usize|
                #[trigger] final(self).value_at(a2) == if word_of(a2) == word_of(addr) {
                    v
                } else {
                    old(self).value_at(a2)
                },
    {
        self.l1.store(addr, v);
    }
}

impl<T: Provenance> Default for ShadowHeap<T> {
    /// An empty table: nothing materialized, every lookup reads the
    /// default.
    fn default() -> (r: Self)
        ensures
            r.wf(),
            r.untouched(),
    {
        ShadowHeap { l1: L1::new() }
    }
}

/// A lookup before any write returns the "no provenance" default,
/// whatever the address.
pub proof fn lemma_untouched_reads_default<T: Provenance>(h: ShadowHeap<T>, addr: usize)
    requires
        h.untouched(),
    ensures
        h.value_at(addr) == T::no_prov_spec(),
{
}

} // verus!
