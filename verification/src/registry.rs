//! The allocation registry: issues allocation identifiers and owns one
//! metadata record per live allocation.
//!
//! Registry state is authoritative; the shadow table is an advisory
//! cache derived from it.  Identifiers are assigned monotonically and
//! never reused; zero is reserved to mean "no allocation".

use std::collections::HashMap;
use vstd::prelude::*;

use crate::geometry::ADDR_BOUND;
use crate::tree::BorTag;
use crate::tree::Mutability;
use crate::tree::Tree;

verus! {

/// Identifies one allocation, uniquely among simultaneously live ones.
/// Zero is reserved as the null-pointer sentinel.
pub type AllocId = u64;

/// A condition under which checking cannot safely continue.  Distinct
/// from a checked-program violation: it reports exhaustion of the
/// runtime's own resources, not a fault of the checked program.
#[derive(Debug, Clone, Copy, PartialEq, Eq, Structural)]
pub enum FatalError {
    /// No fresh allocation identifier or borrow tag is left.
    AllocationExhausted,
}

/// The metadata of one live allocation.
pub struct AllocInfo {
    pub id: AllocId,
    /// Lowest address of the allocation.
    pub base: usize,
    /// Size in bytes.
    pub size: usize,
    pub mutability: Mutability,
    /// Tag reserved for the borrow tree's root.
    pub root_tag: BorTag,
    /// The borrow tree, constructed lazily on the first borrow and
    /// absent until then.
    pub tree: Option<Tree>,
}

impl AllocInfo {
    /// Identifier and root tag are valid; the allocation lies below the
    /// address bound; a constructed tree covers exactly this allocation
    /// and is rooted at the reserved tag.
    pub open spec fn wf(self) -> bool {
        &&& self.id != 0
        &&& self.root_tag != 0
        &&& self.base as int + self.size as int <= ADDR_BOUND as int
        &&& self.base as int + self.size as int <= usize::MAX as int
        &&& match self.tree {
            Some(t) => t.wf() && t.size_of() == self.size as int && t.tag_at(0) == self.root_tag,
            None => true,
        }
    }
}

/// Owns every live allocation's metadata, keyed by identifier.
pub struct AllocationRegistry {
    allocs: HashMap<u64, AllocInfo>,
    next_id: u64,
}

impl AllocationRegistry {
    /// The live allocations, as identifier-to-metadata map.
    pub closed spec fn alloc_map(self) -> Map<u64, AllocInfo> {
        self.allocs@
    }

    /// The identifier the next registration will receive.
    pub closed spec fn next_id_spec(self) -> u64 {
        self.next_id
    }

    /// The allocation is currently registered.
    pub open spec fn live(self, id: AllocId) -> bool {
        self.alloc_map().contains_key(id)
    }

    /// Metadata of a live allocation.
    pub open spec fn info_of(self, id: AllocId) -> AllocInfo {
        self.alloc_map()[id]
    }

    /// Identifiers start at one, grow monotonically, and every record
    /// is well formed and filed under its own identifier.
    pub open spec fn wf(self) -> bool {
        &&& self.next_id_spec() >= 1
        &&& forall|id: u64|
            self.alloc_map().contains_key(id) ==> {
                let info = #[trigger] self.alloc_map()[id];
                &&& info.id == id
                &&& id != 0
                &&& id < self.next_id_spec()
                &&& info.wf()
            }
    }

    /// An empty registry.
    pub fn new() -> (r: Self)
        ensures
            r.wf(),
            r.alloc_map() == Map::<u64, AllocInfo>::empty(),
            r.next_id_spec() == 1,
    {
        AllocationRegistry { allocs: HashMap::new(), next_id: 1 }
    }

    /// Registers a new allocation under a fresh identifier, with no
    /// tree yet (provenance is recorded lazily on the first retag).
    /// Fails exactly when the identifier space is exhausted, in which
    /// case nothing changes.
    pub fn register(
        &mut self,
        base: usize,
        size: usize,
        mutability: Mutability,
        root_tag: BorTag,
    ) -> (r: Result<AllocId, FatalError>)
        requires
            old(self).wf(),
            root_tag != 0,
            base as int + size as int <= ADDR_BOUND as int,
            base as int + size as int <= usize::MAX as int,
        ensures
            final(self).wf(),
            r is Err <==> old(self).next_id_spec() == u64::MAX,
            match r {
                Ok(id) => {
                    &&& id == old(self).next_id_spec()
                    &&& id != 0
                    &&& !old(self).live(id)
                    &&& final(self).live(id)
                    &&& final(self).next_id_spec() == old(self).next_id_spec() + 1
                    &&& final(self).alloc_map() == old(self).alloc_map().insert(
                        id,
                        (AllocInfo { id, base, size, mutability, root_tag, tree: None }),
                    )
                },
                Err(e) => e is AllocationExhausted && final(self).alloc_map() == old(
                    self,
                ).alloc_map() && final(self).next_id_spec() == old(self).next_id_spec(),
            },
    {
        if self.next_id == u64::MAX {
            return Err(FatalError::AllocationExhausted);
        }
        let id = self.next_id;
        self.next_id = self.next_id + 1;
        self.allocs.insert(
            id,
            AllocInfo { id, base, size, mutability, root_tag, tree: None },
        );
        Ok(id)
    }

    /// Metadata of a live allocation; absence signals use-after-free or
    /// provenance confusion to the caller.
    pub fn lookup(&self, id: AllocId) -> (r: Option<&AllocInfo>)
        ensures
            match r {
                Some(info) => self.live(id) && *info == self.info_of(id),
                None => !self.live(id),
            },
    {
        self.allocs.get(&id)
    }

    /// Removes and hands out a live allocation's record, for an update
    /// or a teardown; `put` files it back.
    pub fn take(&mut self, id: AllocId) -> (r: Option<AllocInfo>)
        requires
            old(self).wf(),
        ensures
            final(self).wf(),
            final(self).next_id_spec() == old(self).next_id_spec(),
            final(self).alloc_map() == old(self).alloc_map().remove(id),
            match r {
                Some(info) => old(self).live(id) && info == old(self).info_of(id),
                None => !old(self).live(id),
            },
    {
        self.allocs.remove(&id)
    }

    /// Files a record back under its identifier.
    pub fn put(&mut self, id: AllocId, info: AllocInfo)
        requires
            old(self).wf(),
            info.id == id,
            id < old(self).next_id_spec(),
            info.wf(),
        ensures
            final(self).wf(),
            final(self).next_id_spec() == old(self).next_id_spec(),
            final(self).alloc_map() == old(self).alloc_map().insert(id, info),
    {
        self.allocs.insert(id, info);
    }

    /// Releases an allocation's record, tree included.  Must happen
    /// before the backing memory can be reused, or stale comparisons
    /// can miss real errors.  Returns whether the allocation was live.
    pub fn deregister(&mut self, id: AllocId) -> (r: bool)
        requires
            old(self).wf(),
        ensures
            final(self).wf(),
            final(self).next_id_spec() == old(self).next_id_spec(),
            final(self).alloc_map() == old(self).alloc_map().remove(id),
            r == old(self).live(id),
    {
        let taken = self.take(id);
        taken.is_some()
    }
}

} // verus!
