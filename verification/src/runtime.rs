//! The orchestration layer consumed at the instrumentation boundary.
//!
//! A [`Context`] composes the allocation registry, the shadow table and
//! the per-allocation borrow trees, and exposes one entry point per
//! instrumented event: allocation, deallocation, read, write, retag,
//! function entry and exit, and tag exposure.  The context is an
//! explicit object passed to every operation, so independent contexts
//! can coexist; registry state is authoritative and the shadow table is
//! an advisory cache derived from it.
//!
//! Whether a reported violation aborts the checked program is the
//! caller's policy decision, never made here.

use vstd::prelude::*;

use crate::geometry::in_bound;
use crate::geometry::word_of;
use crate::geometry::ADDR_BOUND;
use crate::geometry::PTR_BYTES;
use crate::registry::AllocId;
use crate::registry::AllocInfo;
use crate::registry::AllocationRegistry;
use crate::registry::FatalError;
use crate::shadow::ShadowHeap;
use crate::tree::initial_perm;
use crate::tree::AccessKind;
use crate::tree::BorTag;
use crate::tree::Mutability;
use crate::tree::Permission;
use crate::tree::PlaceKind;
use crate::tree::RetagKind;
use crate::tree::Tree;
use crate::tree::Violation;

verus! {

/// Provenance carried alongside (never inside) a raw pointer value:
/// the allocation that produced the pointer and the borrow node it
/// represents.  Produced on allocation and on every retag.  Plain data;
/// the owning allocation's record lives in the registry, keyed by
/// `alloc_id`, so no back-reference can dangle.
#[derive(Debug, Clone, Copy, PartialEq, Eq, Structural)]
pub struct Provenance {
    /// Zero means "no allocation" (null-pointer sentinel).
    pub alloc_id: AllocId,
    /// Zero is invalid and names no borrow.
    pub bor_tag: BorTag,
}

impl crate::shadow::Provenance for Provenance {
    open spec fn no_prov_spec() -> Provenance {
        Provenance { alloc_id: 0, bor_tag: 0 }
    }

    fn no_provenance() -> (r: Provenance) {
        Provenance { alloc_id: 0, bor_tag: 0 }
    }
}

/// What a retag can report: a fatal condition of the runtime itself,
/// kept distinct from a violation by the checked program.
#[derive(Debug, Clone, Copy, PartialEq, Eq, Structural)]
pub enum RuntimeError {
    Fatal(FatalError),
    Checked(Violation),
}

/// Whether `[addr, addr + size)` lies within the allocation.
pub open spec fn range_in_alloc(addr: usize, size: usize, info: AllocInfo) -> bool {
    &&& info.base as int <= addr as int
    &&& addr as int + size as int <= info.base as int + info.size as int
}

/// Which shadow words a retag of `[addr, addr + size)` overwrites:
/// every tracked word the range touches.
pub open spec fn covered(addr: usize, size: usize, a2: usize) -> bool {
    &&& size > 0
    &&& word_of(addr) <= word_of(a2)
    &&& word_of(a2) <= (addr as int + size as int - 1) / (PTR_BYTES as int)
}

/// The tree a first retag leaves behind: the lazily built root, Active
/// over the whole allocation, and one fresh child holding
/// `initial_perm` over `Active` everywhere.
pub open spec fn lazy_tree_retagged(
    t1: Tree,
    info: AllocInfo,
    new_tag: BorTag,
    kind: RetagKind,
    place: PlaceKind,
    mutability: Mutability,
    protected: bool,
) -> bool {
    &&& t1.node_count() == 2
    &&& t1.size_of() == info.size as int
    &&& t1.tag_at(0) == info.root_tag
    &&& t1.parent_at(0) is None
    &&& !t1.protected_at(0)
    &&& !t1.exposed_at(0)
    &&& forall|b: int| 0 <= b < info.size as int ==> t1.perm_at(0, b) == Permission::Active
    &&& t1.tag_at(1) == new_tag
    &&& t1.parent_at(1) == Some(info.root_tag)
    &&& t1.protected_at(1) == protected
    &&& t1.freeze_ok_at(1) == !(place is Unpin)
    &&& !t1.exposed_at(1)
    &&& forall|b: int|
        0 <= b < info.size as int ==> t1.perm_at(1, b) == initial_perm(
            kind,
            place,
            mutability,
            Permission::Active,
        )
}

/// Whether the frame lists the pair `(id, tag)`.
pub open spec fn frame_mentions(frame: Seq<Provenance>, id: AllocId, tag: BorTag) -> bool {
    exists|k: int|
        0 <= k < frame.len() && #[trigger] frame[k] == (Provenance { alloc_id: id, bor_tag: tag })
}

/// The allocation's record after a frame's protectors are dropped: the
/// tree keeps its shape and permissions; a node stays protected exactly
/// if it was protected and the frame does not list its tag.
pub open spec fn protect_cleared(
    pre: AllocInfo,
    post: AllocInfo,
    id: AllocId,
    frame: Seq<Provenance>,
) -> bool {
    &&& post.id == pre.id
    &&& post.base == pre.base
    &&& post.size == pre.size
    &&& post.mutability == pre.mutability
    &&& post.root_tag == pre.root_tag
    &&& match (pre.tree, post.tree) {
        (None, None) => true,
        (Some(t0), Some(t1)) => {
            &&& t1.node_count() == t0.node_count()
            &&& t1.size_of() == t0.size_of()
            &&& forall|i: int| t0.valid_index(i) ==> #[trigger] t1.tag_at(i) == t0.tag_at(i)
            &&& forall|i: int| t0.valid_index(i) ==> #[trigger] t1.parent_at(i) == t0.parent_at(i)
            &&& forall|i: int|
                t0.valid_index(i) ==> #[trigger] t1.freeze_ok_at(i) == t0.freeze_ok_at(i)
            &&& forall|i: int|
                t0.valid_index(i) ==> #[trigger] t1.exposed_at(i) == t0.exposed_at(i)
            &&& forall|i: int, b: int|
                t0.valid_index(i) && 0 <= b < t0.size_of() ==> #[trigger] t1.perm_at(i, b)
                    == t0.perm_at(i, b)
            &&& forall|i: int|
                t0.valid_index(i) ==> #[trigger] t1.protected_at(i) == (t0.protected_at(i)
                    && !frame_mentions(frame, id, t0.tag_at(i)))
        },
        _ => false,
    }
}

/// One checking session: registry, shadow table, tag issuance and the
/// stack of function frames whose entry retags are protected.
pub struct Context {
    registry: AllocationRegistry,
    shadow: ShadowHeap<Provenance>,
    next_tag: u64,
    frames: Vec<Vec<Provenance>>,
}

impl Context {
    /// The allocation is currently registered.
    pub closed spec fn live(self, id: AllocId) -> bool {
        self.registry.live(id)
    }

    /// Metadata of a live allocation.
    pub closed spec fn info_of(self, id: AllocId) -> AllocInfo {
        self.registry.info_of(id)
    }

    /// Provenance the shadow table records for `addr`'s word.
    pub closed spec fn shadow_at(self, addr: usize) -> Provenance {
        self.shadow.value_at(addr)
    }

    /// The borrow tag the next retag or allocation will consume.
    pub closed spec fn next_tag_spec(self) -> u64 {
        self.next_tag
    }

    /// Number of open function frames.
    pub closed spec fn frame_count(self) -> int {
        self.frames.len() as int
    }

    /// The provenances retagged with `FnEntry` in frame `i`.
    pub closed spec fn frame_at(self, i: int) -> Seq<Provenance> {
        self.frames[i]@
    }

    /// No fresh allocation identifier or borrow tag is left.
    pub closed spec fn ids_exhausted(self) -> bool {
        self.registry.next_id_spec() == u64::MAX || self.next_tag == u64::MAX
    }

    /// No fresh borrow tag is left.
    pub closed spec fn tags_exhausted(self) -> bool {
        self.next_tag == u64::MAX
    }

    /// Registry and shadow table well formed; every tag ever issued,
    /// root tags included, lies below the tag counter.
    pub closed spec fn wf(self) -> bool {
        &&& self.registry.wf()
        &&& self.shadow.wf()
        &&& self.next_tag >= 1
        &&& forall|id: AllocId|
            self.registry.live(id) ==> {
                let info = #[trigger] self.registry.info_of(id);
                &&& info.root_tag < self.next_tag
                &&& match info.tree {
                    Some(t) => forall|i: int|
                        t.valid_index(i) ==> (#[trigger] t.tag_at(i)) < self.next_tag,
                    None => true,
                }
            }
    }

    /// `post` has exactly the allocations of `self`, unchanged.
    pub open spec fn allocs_unchanged(self, post: Context) -> bool {
        &&& forall|id: AllocId| #[trigger] post.live(id) == self.live(id)
        &&& forall|id: AllocId|
            self.live(id) ==> #[trigger] post.info_of(id) == self.info_of(id)
    }

    /// Every shadow slot of `post` reads as in `self`.
    pub open spec fn shadow_unchanged(self, post: Context) -> bool {
        forall|a: usize| #[trigger] post.shadow_at(a) == self.shadow_at(a)
    }

    /// The frame stack of `post` is that of `self`.
    pub open spec fn frames_unchanged(self, post: Context) -> bool {
        &&& post.frame_count() == self.frame_count()
        &&& forall|i: int|
            0 <= i < self.frame_count() ==> #[trigger] post.frame_at(i) == self.frame_at(i)
    }

    /// The context invariant survives an operation that leaves the
    /// registry map, the shadow table, the tag counter and the frames
    /// as they were (the registry's hash table may have been touched
    /// and restored).
    proof fn lemma_wf_restore(pre: Context, post: Context)
        requires
            pre.wf(),
            post.registry.wf(),
            post.registry.alloc_map() == pre.registry.alloc_map(),
            post.registry.next_id_spec() == pre.registry.next_id_spec(),
            post.shadow == pre.shadow,
            post.next_tag == pre.next_tag,
            post.frames == pre.frames,
        ensures
            post.wf(),
            pre.allocs_unchanged(post),
            pre.shadow_unchanged(post),
            pre.frames_unchanged(post),
    {
        assert forall|id: AllocId|
            post.registry.live(id) implies {
            let info = #[trigger] post.registry.info_of(id);
            &&& info.root_tag < post.next_tag
            &&& match info.tree {
                Some(t) => forall|i: int|
                    t.valid_index(i) ==> (#[trigger] t.tag_at(i)) < post.next_tag,
                None => true,
            }
        } by {
            assert(post.registry.info_of(id) == pre.registry.info_of(id));
            assert(pre.registry.live(id));
            assert(pre.registry.info_of(id).root_tag < pre.next_tag);
        }
    }

    /// The context invariant survives the removal of one allocation,
    /// everything else untouched.
    proof fn lemma_wf_after_remove(pre: Context, post: Context, id: AllocId)
        requires
            pre.wf(),
            post.registry.wf(),
            post.registry.alloc_map() == pre.registry.alloc_map().remove(id),
            post.shadow == pre.shadow,
            post.next_tag == pre.next_tag,
            post.frames == pre.frames,
        ensures
            post.wf(),
            pre.shadow_unchanged(post),
            pre.frames_unchanged(post),
            !post.live(id),
            forall|id2: AllocId| id2 != id ==> #[trigger] post.live(id2) == pre.live(id2),
            forall|id2: AllocId|
                id2 != id && pre.live(id2) ==> #[trigger] post.info_of(id2) == pre.info_of(id2),
    {
        assert forall|id2: AllocId|
            post.registry.live(id2) implies {
            let info = #[trigger] post.registry.info_of(id2);
            &&& info.root_tag < post.next_tag
            &&& match info.tree {
                Some(t) => forall|i: int|
                    t.valid_index(i) ==> (#[trigger] t.tag_at(i)) < post.next_tag,
                None => true,
            }
        } by {
            assert(id2 != id);
            assert(post.registry.info_of(id2) == pre.registry.info_of(id2));
            assert(pre.registry.live(id2));
            assert(pre.registry.info_of(id2).root_tag < pre.next_tag);
        }
    }

    /// A fresh checking session: nothing live, nothing shadowed, no
    /// open frame.
    pub fn new() -> (r: Context)
        ensures
            r.wf(),
            forall|id: AllocId| !r.live(id),
            forall|a: usize| r.shadow_at(a) == (Provenance { alloc_id: 0, bor_tag: 0 }),
            r.frame_count() == 0,
            r.next_tag_spec() == 1,
            !r.ids_exhausted(),
    {
        let c = Context {
            registry: AllocationRegistry::new(),
            shadow: ShadowHeap::default(),
            next_tag: 1,
            frames: Vec::new(),
        };
        proof {
            assert forall|a: usize| c.shadow_at(a) == (Provenance {
                alloc_id: 0,
                bor_tag: 0,
            }) by {
                crate::shadow::lemma_untouched_reads_default(c.shadow, a);
            }
        }
        c
    }

    /// Registers a new allocation of `size` bytes at `addr` and returns
    /// its initial provenance: the fresh allocation identifier and the
    /// tag reserved for the borrow tree's root.  The tree itself stays
    /// unconstructed until the first retag, and the shadow table is not
    /// touched.  Fails exactly when an identifier or tag counter is
    /// exhausted, and then changes nothing.
    pub fn on_alloc(&mut self, addr: usize, size: usize) -> (r: Result<Provenance, FatalError>)
        requires
            old(self).wf(),
            addr as int + size as int <= ADDR_BOUND as int,
            addr as int + size as int <= usize::MAX as int,
        ensures
            final(self).wf(),
            r is Err <==> old(self).ids_exhausted(),
            old(self).shadow_unchanged(*final(self)),
            old(self).frames_unchanged(*final(self)),
            match r {
                Ok(p) => {
                    &&& p.alloc_id != 0
                    &&& p.bor_tag != 0
                    &&& p.bor_tag == old(self).next_tag_spec()
                    &&& !old(self).live(p.alloc_id)
                    &&& final(self).live(p.alloc_id)
                    &&& final(self).info_of(p.alloc_id) == (AllocInfo {
                        id: p.alloc_id,
                        base: addr,
                        size,
                        mutability: Mutability::Mutable,
                        root_tag: p.bor_tag,
                        tree: None,
                    })
                    &&& forall|id: AllocId|
                        id != p.alloc_id ==> #[trigger] final(self).live(id) == old(self).live(id)
                    &&& forall|id: AllocId|
                        id != p.alloc_id && old(self).live(id) ==> #[trigger] final(self).info_of(
                            id,
                        ) == old(self).info_of(id)
                    &&& final(self).next_tag_spec() == old(self).next_tag_spec() + 1
                },
                Err(e) => e is AllocationExhausted && old(self).allocs_unchanged(*final(self))
                    && final(self).next_tag_spec() == old(self).next_tag_spec(),
            },
    {
        let ghost pre = *self;
        if self.next_tag == u64::MAX {
            return Err(FatalError::AllocationExhausted);
        }
        let root_tag = self.next_tag;
        match self.registry.register(addr, size, Mutability::Mutable, root_tag) {
            Ok(id) => {
                self.next_tag = self.next_tag + 1;
                proof {
                    assert forall|id2: AllocId|
                        self.registry.live(id2) implies {
                        let info = #[trigger] self.registry.info_of(id2);
                        &&& info.root_tag < self.next_tag
                        &&& match info.tree {
                            Some(t) => forall|i: int|
                                t.valid_index(i) ==> (#[trigger] t.tag_at(i)) < self.next_tag,
                            None => true,
                        }
                    } by {
                        if id2 != id {
                            assert(self.registry.info_of(id2) == pre.registry.info_of(id2));
                            assert(pre.registry.live(id2));
                            assert(pre.registry.info_of(id2).root_tag < pre.next_tag);
                        }
                    }
                    assert(self.wf());
                }
                Ok(Provenance { alloc_id: id, bor_tag: root_tag })
            },
            Err(e) => {
                proof {
                    Self::lemma_wf_restore(pre, *self);
                }
                Err(e)
            },
        }
    }

    /// The exact outcome of a read or write with `prov` over
    /// `[addr, addr + size)`: an unregistered allocation is a
    /// use-after-free, a range outside the allocation a provenance
    /// mismatch; with a constructed tree the tree decides; with none,
    /// only the reserved root tag may access.
    pub open spec fn access_result_spec(
        self,
        addr: usize,
        size: usize,
        prov: Provenance,
        kind: AccessKind,
    ) -> Result<(), Violation> {
        if !self.live(prov.alloc_id) {
            Err(Violation::UseAfterFree)
        } else {
            let info = self.info_of(prov.alloc_id);
            if !range_in_alloc(addr, size, info) {
                Err(Violation::ProvenanceMismatch)
            } else {
                match info.tree {
                    Some(t) => t.access_result(
                        prov.bor_tag,
                        kind,
                        addr as int - info.base as int,
                        addr as int - info.base as int + size as int,
                    ),
                    None => if prov.bor_tag == info.root_tag {
                        Ok(())
                    } else {
                        Err(Violation::ProvenanceMismatch)
                    },
                }
            }
        }
    }

    /// `post` is `self` after a permitted access: the touched
    /// allocation's tree stepped per `access_applied`, all else equal.
    pub open spec fn access_updated(
        self,
        post: Context,
        addr: usize,
        size: usize,
        prov: Provenance,
        kind: AccessKind,
    ) -> bool {
        let info = self.info_of(prov.alloc_id);
        let post_info = post.info_of(prov.alloc_id);
        &&& forall|id: AllocId| #[trigger] post.live(id) == self.live(id)
        &&& forall|id: AllocId|
            id != prov.alloc_id && self.live(id) ==> #[trigger] post.info_of(id) == self.info_of(
                id,
            )
        &&& post_info.id == info.id
        &&& post_info.base == info.base
        &&& post_info.size == info.size
        &&& post_info.mutability == info.mutability
        &&& post_info.root_tag == info.root_tag
        &&& match (info.tree, post_info.tree) {
            (None, None) => true,
            (Some(t0), Some(t1)) => t0.access_applied(
                t1,
                t0.idx_of(prov.bor_tag),
                kind,
                addr as int - info.base as int,
                addr as int - info.base as int + size as int,
            ),
            _ => false,
        }
    }

    /// Checks a read of `[addr, addr + size)` through `prov` and applies
    /// the resulting permission decay.  Provenance naming a deallocated
    /// allocation always yields `UseAfterFree`.
    pub fn on_read(&mut self, addr: usize, size: usize, prov: Provenance) -> (r: Result<
        (),
        Violation,
    >)
        requires
            old(self).wf(),
        ensures
            final(self).wf(),
            r == old(self).access_result_spec(addr, size, prov, AccessKind::Read),
            !old(self).live(prov.alloc_id) ==> r == Err::<(), Violation>(Violation::UseAfterFree),
            old(self).shadow_unchanged(*final(self)),
            old(self).frames_unchanged(*final(self)),
            final(self).next_tag_spec() == old(self).next_tag_spec(),
            r is Err ==> old(self).allocs_unchanged(*final(self)),
            r is Ok ==> old(self).access_updated(*final(self), addr, size, prov, AccessKind::Read),
    {
        self.access_impl(addr, size, prov, AccessKind::Read)
    }

    /// Checks a write of `[addr, addr + size)` through `prov` and
    /// applies the resulting permission decay.  Provenance naming a
    /// deallocated allocation always yields `UseAfterFree`.
    pub fn on_write(&mut self, addr: usize, size: usize, prov: Provenance) -> (r: Result<
        (),
        Violation,
    >)
        requires
            old(self).wf(),
        ensures
            final(self).wf(),
            r == old(self).access_result_spec(addr, size, prov, AccessKind::Write),
            !old(self).live(prov.alloc_id) ==> r == Err::<(), Violation>(Violation::UseAfterFree),
            old(self).shadow_unchanged(*final(self)),
            old(self).frames_unchanged(*final(self)),
            final(self).next_tag_spec() == old(self).next_tag_spec(),
            r is Err ==> old(self).allocs_unchanged(*final(self)),
            r is Ok ==> old(self).access_updated(*final(self), addr, size, prov, AccessKind::Write),
    {
        self.access_impl(addr, size, prov, AccessKind::Write)
    }

    fn access_impl(&mut self, addr: usize, size: usize, prov: Provenance, kind: AccessKind) -> (r:
        Result<(), Violation>)
        requires
            old(self).wf(),
        ensures
            final(self).wf(),
            r == old(self).access_result_spec(addr, size, prov, kind),
            !old(self).live(prov.alloc_id) ==> r == Err::<(), Violation>(Violation::UseAfterFree),
            old(self).shadow_unchanged(*final(self)),
            old(self).frames_unchanged(*final(self)),
            final(self).next_tag_spec() == old(self).next_tag_spec(),
            r is Err ==> old(self).allocs_unchanged(*final(self)),
            r is Ok ==> old(self).access_updated(*final(self), addr, size, prov, kind),
    {
        let ghost pre = *self;
        let info = match self.registry.take(prov.alloc_id) {
            Some(info) => info,
            None => {
                proof {
                    assert(self.registry.alloc_map() =~= pre.registry.alloc_map());
                    Self::lemma_wf_restore(pre, *self);
                }
                return Err(Violation::UseAfterFree);
            },
        };
        let AllocInfo { id, base, size: asize, mutability, root_tag, tree } = info;
        if addr < base || size > asize || addr - base > asize - size {
            self.registry.put(
                prov.alloc_id,
                AllocInfo { id, base, size: asize, mutability, root_tag, tree },
            );
            proof {
                assert(self.registry.alloc_map() =~= pre.registry.alloc_map());
                    Self::lemma_wf_restore(pre, *self);
            }
            return Err(Violation::ProvenanceMismatch);
        }
        match tree {
            None => {
                self.registry.put(
                    prov.alloc_id,
                    AllocInfo { id, base, size: asize, mutability, root_tag, tree: None },
                );
                proof {
                    assert(self.registry.alloc_map() =~= pre.registry.alloc_map());
                    Self::lemma_wf_restore(pre, *self);
                }
                if prov.bor_tag == root_tag {
                    Ok(())
                } else {
                    Err(Violation::ProvenanceMismatch)
                }
            },
            Some(mut t) => {
                let start = addr - base;
                let end = start + size;
                let res = t.access(prov.bor_tag, kind, start, end);
                self.registry.put(
                    prov.alloc_id,
                    AllocInfo { id, base, size: asize, mutability, root_tag, tree: Some(t) },
                );
                proof {
                    if res is Err {
                        assert(self.registry.alloc_map() =~= pre.registry.alloc_map());
                    Self::lemma_wf_restore(pre, *self);
                    } else {
                        assert forall|id2: AllocId| #[trigger] self.live(id2) == pre.live(
                            id2,
                        ) by {}
                        assert forall|id2: AllocId|
                            pre.registry.live(id2) implies {
                            let info2 = #[trigger] self.registry.info_of(id2);
                            &&& info2.root_tag < self.next_tag
                            &&& match info2.tree {
                                Some(t2) => forall|i: int|
                                    t2.valid_index(i) ==> (#[trigger] t2.tag_at(i)) < self.next_tag,
                                None => true,
                            }
                        } by {
                            if id2 != prov.alloc_id {
                                assert(self.registry.info_of(id2) == pre.registry.info_of(id2));
                            } else {
                                let t0 = pre.registry.info_of(id2).tree->0;
                                assert forall|i: int| t.valid_index(i) implies (#[trigger] t.tag_at(
                                    i,
                                )) < self.next_tag by {
                                    assert(t0.valid_index(i));
                                    assert(t.tag_at(i) == t0.tag_at(i));
                                    assert(t0.tag_at(i) < pre.next_tag);
                                }
                            }
                        }
                    }
                    assert(self.wf());
                }
                res
            },
        }
    }

    /// The exact outcome of deallocating at `addr` with `prov`: an
    /// unregistered allocation is a use-after-free (a second
    /// deallocation included), an address other than the base a
    /// provenance mismatch; with a constructed tree the tree's
    /// deallocation check decides; with none, only the reserved root
    /// tag may free.
    pub open spec fn dealloc_result_spec(self, addr: usize, prov: Provenance) -> Result<
        (),
        Violation,
    > {
        if !self.live(prov.alloc_id) {
            Err(Violation::UseAfterFree)
        } else {
            let info = self.info_of(prov.alloc_id);
            if addr != info.base {
                Err(Violation::ProvenanceMismatch)
            } else {
                match info.tree {
                    Some(t) => t.dealloc_result(prov.bor_tag),
                    None => if prov.bor_tag == info.root_tag {
                        Ok(())
                    } else {
                        Err(Violation::ProvenanceMismatch)
                    },
                }
            }
        }
    }

    /// Validates `prov`, checks the deallocation against the borrow
    /// tree, and on success tears the allocation's record down: the
    /// allocation is no longer live, so every later access through any
    /// provenance naming it yields `UseAfterFree`.  On a violation
    /// nothing changes; in particular a repeated deallocation fails and
    /// frees no metadata twice.
    pub fn on_dealloc(&mut self, addr: usize, prov: Provenance) -> (r: Result<(), Violation>)
        requires
            old(self).wf(),
        ensures
            final(self).wf(),
            r == old(self).dealloc_result_spec(addr, prov),
            !old(self).live(prov.alloc_id) ==> r == Err::<(), Violation>(Violation::UseAfterFree),
            old(self).shadow_unchanged(*final(self)),
            old(self).frames_unchanged(*final(self)),
            final(self).next_tag_spec() == old(self).next_tag_spec(),
            r is Err ==> old(self).allocs_unchanged(*final(self)),
            r is Ok ==> {
                &&& !final(self).live(prov.alloc_id)
                &&& forall|id: AllocId|
                    id != prov.alloc_id ==> #[trigger] final(self).live(id) == old(self).live(id)
                &&& forall|id: AllocId|
                    id != prov.alloc_id && old(self).live(id) ==> #[trigger] final(self).info_of(
                        id,
                    ) == old(self).info_of(id)
            },
    {
        let ghost pre = *self;
        let info = match self.registry.take(prov.alloc_id) {
            Some(info) => info,
            None => {
                proof {
                    assert(self.registry.alloc_map() =~= pre.registry.alloc_map());
                    Self::lemma_wf_restore(pre, *self);
                }
                return Err(Violation::UseAfterFree);
            },
        };
        let AllocInfo { id, base, size: asize, mutability, root_tag, tree } = info;
        if addr != base {
            self.registry.put(
                prov.alloc_id,
                AllocInfo { id, base, size: asize, mutability, root_tag, tree },
            );
            proof {
                assert(self.registry.alloc_map() =~= pre.registry.alloc_map());
                    Self::lemma_wf_restore(pre, *self);
            }
            return Err(Violation::ProvenanceMismatch);
        }
        match tree {
            None => {
                if prov.bor_tag == root_tag {
                    proof {
                        Self::lemma_wf_after_remove(pre, *self, prov.alloc_id);
                    }
                    Ok(())
                } else {
                    self.registry.put(
                        prov.alloc_id,
                        AllocInfo { id, base, size: asize, mutability, root_tag, tree: None },
                    );
                    proof {
                        assert(self.registry.alloc_map() =~= pre.registry.alloc_map());
                    Self::lemma_wf_restore(pre, *self);
                    }
                    Err(Violation::ProvenanceMismatch)
                }
            },
            Some(mut t) => {
                let res = t.dealloc_access(prov.bor_tag);
                match res {
                    Ok(()) => {
                        proof {
                            Self::lemma_wf_after_remove(pre, *self, prov.alloc_id);
                        }
                        Ok(())
                    },
                    Err(v) => {
                        self.registry.put(
                            prov.alloc_id,
                            AllocInfo {
                                id,
                                base,
                                size: asize,
                                mutability,
                                root_tag,
                                tree: Some(t),
                            },
                        );
                        proof {
                            assert(self.registry.alloc_map() =~= pre.registry.alloc_map());
                    Self::lemma_wf_restore(pre, *self);
                        }
                        Err(v)
                    },
                }
            },
        }
    }
}

impl Context {
    /// The violation a retag reports, fatal exhaustion aside: an
    /// unregistered allocation is a use-after-free, a range outside the
    /// allocation a provenance mismatch, and the parent tag must name a
    /// node of the tree (the reserved root tag, while no tree exists).
    pub open spec fn retag_result_spec(self, addr: usize, size: usize, parent: Provenance) -> Result<
        (),
        Violation,
    > {
        if !self.live(parent.alloc_id) {
            Err(Violation::UseAfterFree)
        } else {
            let info = self.info_of(parent.alloc_id);
            if !range_in_alloc(addr, size, info) {
                Err(Violation::ProvenanceMismatch)
            } else {
                match info.tree {
                    Some(t) => if t.has_tag(parent.bor_tag) {
                        Ok(())
                    } else {
                        Err(Violation::ProvenanceMismatch)
                    },
                    None => if parent.bor_tag == info.root_tag {
                        Ok(())
                    } else {
                        Err(Violation::ProvenanceMismatch)
                    },
                }
            }
        }
    }

    /// Creates a new borrow of `[addr, addr + size)` as a child of the
    /// borrow `parent` names, constructing the allocation's tree on its
    /// first borrow, and returns the fresh provenance.  The new
    /// provenance is written into every shadow slot the range touches,
    /// so address-based observers stay consistent.  A `FnEntry` retag
    /// with an open frame is protected and recorded in that frame.
    /// Exhaustion of the tag counter is fatal and reported apart from
    /// any checked-program violation; nothing changes on any failure.
    pub fn on_retag(
        &mut self,
        addr: usize,
        size: usize,
        parent: Provenance,
        kind: RetagKind,
        place: PlaceKind,
        mutability: Mutability,
    ) -> (r: Result<Provenance, RuntimeError>)
        requires
            old(self).wf(),
        ensures
            final(self).wf(),
            r == (if old(self).tags_exhausted() {
                Err::<Provenance, RuntimeError>(RuntimeError::Fatal(FatalError::AllocationExhausted))
            } else {
                match old(self).retag_result_spec(addr, size, parent) {
                    Err(v) => Err::<Provenance, RuntimeError>(RuntimeError::Checked(v)),
                    Ok(()) => Ok::<Provenance, RuntimeError>(
                        Provenance { alloc_id: parent.alloc_id, bor_tag: old(self).next_tag_spec() },
                    ),
                }
            }),
            r is Err ==> old(self).allocs_unchanged(*final(self)) && old(self).shadow_unchanged(
                *final(self),
            ) && old(self).frames_unchanged(*final(self)) && final(self).next_tag_spec() == old(
                self,
            ).next_tag_spec(),
            r is Ok ==> ({
                let new_prov = Provenance {
                    alloc_id: parent.alloc_id,
                    bor_tag: old(self).next_tag_spec(),
                };
                let protected = kind is FnEntry && old(self).frame_count() > 0;
                let info = old(self).info_of(parent.alloc_id);
                let post_info = final(self).info_of(parent.alloc_id);
                &&& final(self).next_tag_spec() == old(self).next_tag_spec() + 1
                &&& forall|id: AllocId| #[trigger] final(self).live(id) == old(self).live(id)
                &&& forall|id: AllocId|
                    id != parent.alloc_id && old(self).live(id) ==> #[trigger] final(self).info_of(
                        id,
                    ) == old(self).info_of(id)
                &&& post_info.id == info.id
                &&& post_info.base == info.base
                &&& post_info.size == info.size
                &&& post_info.mutability == info.mutability
                &&& post_info.root_tag == info.root_tag
                &&& match (info.tree, post_info.tree) {
                    (Some(t0), Some(t1)) => t0.retag_applied(
                        t1,
                        parent.bor_tag,
                        new_prov.bor_tag,
                        kind,
                        place,
                        mutability,
                        protected,
                    ),
                    (None, Some(t1)) => lazy_tree_retagged(
                        t1,
                        info,
                        new_prov.bor_tag,
                        kind,
                        place,
                        mutability,
                        protected,
                    ),
                    _ => false,
                }
                &&& forall|a2: usize|
                    #[trigger] final(self).shadow_at(a2) == (if covered(addr, size, a2) {
                        new_prov
                    } else {
                        old(self).shadow_at(a2)
                    })
                &&& if protected {
                    &&& final(self).frame_count() == old(self).frame_count()
                    &&& forall|i: int|
                        0 <= i < old(self).frame_count() - 1 ==> #[trigger] final(self).frame_at(i)
                            == old(self).frame_at(i)
                    &&& final(self).frame_at(old(self).frame_count() - 1) == old(self).frame_at(
                        old(self).frame_count() - 1,
                    ).push(new_prov)
                } else {
                    old(self).frames_unchanged(*final(self))
                }
            }),
    {
        let ghost pre = *self;
        if self.next_tag == u64::MAX {
            return Err(RuntimeError::Fatal(FatalError::AllocationExhausted));
        }
        let info = match self.registry.take(parent.alloc_id) {
            Some(info) => info,
            None => {
                proof {
                    assert(self.registry.alloc_map() =~= pre.registry.alloc_map());
                    Self::lemma_wf_restore(pre, *self);
                }
                return Err(RuntimeError::Checked(Violation::UseAfterFree));
            },
        };
        let AllocInfo { id, base, size: asize, mutability: amut, root_tag, tree } = info;
        if addr < base || size > asize || addr - base > asize - size {
            self.registry.put(
                parent.alloc_id,
                AllocInfo { id, base, size: asize, mutability: amut, root_tag, tree },
            );
            proof {
                assert(self.registry.alloc_map() =~= pre.registry.alloc_map());
                Self::lemma_wf_restore(pre, *self);
            }
            return Err(RuntimeError::Checked(Violation::ProvenanceMismatch));
        }
        let had_tree = tree.is_some();
        // The tree is constructed lazily, on the allocation's first
        // borrow, rooted at the tag reserved when it was registered.
        let mut t = match tree {
            Some(t0) => t0,
            None => Tree::new(asize, root_tag),
        };
        let new_tag = self.next_tag;
        proof {
            assert forall|i: int| t.valid_index(i) implies #[trigger] t.tag_at(i) != new_tag by {
                if had_tree {
                    assert(pre.registry.info_of(parent.alloc_id).root_tag < pre.next_tag);
                } else {
                    assert(t.tag_at(0) == root_tag);
                }
            }
            assert(!t.has_tag(new_tag));
        }
        let protected = kind == RetagKind::FnEntry && self.frames.len() > 0;
        let ghost t_before = t;
        let res = t.retag(parent.bor_tag, new_tag, kind, place, mutability, protected);
        match res {
            Err(_) => {
                proof {
                    assert(pre.registry.info_of(parent.alloc_id).wf());
                }
                if had_tree {
                    self.registry.put(
                        parent.alloc_id,
                        AllocInfo {
                            id,
                            base,
                            size: asize,
                            mutability: amut,
                            root_tag,
                            tree: Some(t),
                        },
                    );
                } else {
                    self.registry.put(
                        parent.alloc_id,
                        AllocInfo { id, base, size: asize, mutability: amut, root_tag, tree: None },
                    );
                }
                proof {
                    assert(self.registry.alloc_map() =~= pre.registry.alloc_map());
                    Self::lemma_wf_restore(pre, *self);
                }
                Err(RuntimeError::Checked(Violation::ProvenanceMismatch))
            },
            Ok(()) => {
                let ghost t_done = t;
                self.next_tag = self.next_tag + 1;
                proof {
                    assert(pre.registry.info_of(parent.alloc_id).wf());
                    assert(t_before.valid_index(0));
                    assert(t_before.node_unchanged(t, 0));
                    assert(t.tag_at(0) == root_tag);
                }
                self.registry.put(
                    parent.alloc_id,
                    AllocInfo { id, base, size: asize, mutability: amut, root_tag, tree: Some(t) },
                );
                let new_prov = Provenance { alloc_id: parent.alloc_id, bor_tag: new_tag };
                if protected {
                    let mut top = match self.frames.pop() {
                        Some(v) => v,
                        None => Vec::new(),
                    };
                    top.push(new_prov);
                    self.frames.push(top);
                }
                proof {
                    assert forall|id2: AllocId|
                        self.registry.live(id2) implies {
                        let info2 = #[trigger] self.registry.info_of(id2);
                        &&& info2.root_tag < self.next_tag
                        &&& match info2.tree {
                            Some(t2) => forall|i: int|
                                t2.valid_index(i) ==> (#[trigger] t2.tag_at(i)) < self.next_tag,
                            None => true,
                        }
                    } by {
                        if id2 != parent.alloc_id {
                            assert(self.registry.info_of(id2) == pre.registry.info_of(id2));
                            assert(pre.registry.live(id2));
                            assert(pre.registry.info_of(id2).root_tag < pre.next_tag);
                        } else {
                            assert(pre.registry.info_of(id2).root_tag < pre.next_tag);
                            assert forall|i: int| t_done.valid_index(i) implies (
                            #[trigger] t_done.tag_at(i)) < self.next_tag by {
                                if had_tree {
                                    let t0 = pre.registry.info_of(id2).tree->0;
                                    assert(t0 == t_before);
                                    if i < t0.node_count() {
                                        assert(t_before.valid_index(i));
                                        assert(t_before.node_unchanged(t_done, i));
                                        assert(t0.tag_at(i) < pre.next_tag);
                                    }
                                } else {
                                    if i < t_before.node_count() {
                                        assert(t_before.valid_index(i));
                                        assert(t_before.node_unchanged(t_done, i));
                                        assert(t_before.tag_at(i) == root_tag);
                                    }
                                }
                            }
                        }
                    }
                    assert(self.wf());
                }
                let ghost mid = *self;
                proof {
                    assert(pre.registry.info_of(parent.alloc_id).wf());
                    assert(addr as int + size as int <= ADDR_BOUND as int);
                    assert(addr as int + size as int <= usize::MAX as int);
                }
                if size > 0 {
                    let w0 = addr / PTR_BYTES;
                    let last = (addr + size - 1) / PTR_BYTES;
                    proof {
                        vstd::arithmetic::div_mod::lemma_div_is_ordered(
                            addr as int,
                            addr as int + size as int - 1,
                            PTR_BYTES as int,
                        );
                    }
                    let mut w = w0;
                    while w <= last
                        invariant
                            mid.wf(),
                            self.registry == mid.registry,
                            self.next_tag == mid.next_tag,
                            self.frames == mid.frames,
                            self.shadow.wf(),
                            w0 <= w <= last + 1,
                            w0 as int == word_of(addr),
                            size > 0,
                            addr as int + size as int <= usize::MAX as int,
                            last as int == (addr as int + size as int - 1) / (PTR_BYTES as int),
                            addr as int + size as int <= ADDR_BOUND as int,
                            forall|a2: usize|
                                #[trigger] self.shadow.value_at(a2) == (if w0 as int <= word_of(a2)
                                    < w as int {
                                    new_prov
                                } else {
                                    mid.shadow.value_at(a2)
                                }),
                        decreases last + 1 - w,
                    {
                        proof {
                            vstd::arithmetic::mul::lemma_mul_inequality(
                                w as int,
                                last as int,
                                PTR_BYTES as int,
                            );
                            vstd::arithmetic::div_mod::lemma_fundamental_div_mod(
                                addr as int + size as int - 1,
                                PTR_BYTES as int,
                            );
                            assert(w as int * 8 <= addr as int + size as int - 1);
                            vstd::arithmetic::div_mod::lemma_div_multiples_vanish(
                                w as int,
                                PTR_BYTES as int,
                            );
                            assert((8 * (w as int)) / 8 == w as int);
                        }
                        let a = w * PTR_BYTES;
                        proof {
                            assert(word_of(a) == w as int);
                            assert(in_bound(a));
                        }
                        let ghost sh_pre = self.shadow;
                        self.shadow.store(a, new_prov);
                        proof {
                            assert forall|a2: usize| #[trigger] self.shadow.value_at(a2) == (if w0
                                as int <= word_of(a2) < w as int + 1 {
                                new_prov
                            } else {
                                mid.shadow.value_at(a2)
                            }) by {
                                if word_of(a2) == w as int {
                                } else {
                                    assert(self.shadow.value_at(a2) == sh_pre.value_at(a2));
                                }
                            }
                        }
                        w = w + 1;
                    }
                    proof {
                        assert forall|a2: usize| #[trigger] self.shadow_at(a2) == (if covered(
                            addr,
                            size,
                            a2,
                        ) {
                            new_prov
                        } else {
                            pre.shadow_at(a2)
                        }) by {}
                    }
                }
                proof {
                    assert(self.wf());
                }
                Ok(new_prov)
            },
        }
    }

    /// Opens a function frame: the `FnEntry` retags that follow are
    /// recorded in it and protected until the matching exit.
    pub fn on_func_entry(&mut self)
        requires
            old(self).wf(),
        ensures
            final(self).wf(),
            old(self).allocs_unchanged(*final(self)),
            old(self).shadow_unchanged(*final(self)),
            final(self).next_tag_spec() == old(self).next_tag_spec(),
            final(self).frame_count() == old(self).frame_count() + 1,
            forall|i: int|
                0 <= i < old(self).frame_count() ==> #[trigger] final(self).frame_at(i) == old(
                    self,
                ).frame_at(i),
            final(self).frame_at(old(self).frame_count()) == Seq::<Provenance>::empty(),
    {
        let fresh: Vec<Provenance> = Vec::new();
        self.frames.push(fresh);
    }

    /// Closes the innermost function frame: every tag it recorded loses
    /// its protector; shapes and permissions stay as they are.  Without
    /// an open frame nothing changes.
    pub fn on_func_exit(&mut self)
        requires
            old(self).wf(),
        ensures
            final(self).wf(),
            old(self).shadow_unchanged(*final(self)),
            final(self).next_tag_spec() == old(self).next_tag_spec(),
            old(self).frame_count() == 0 ==> *final(self) == *old(self),
            old(self).frame_count() > 0 ==> {
                &&& final(self).frame_count() == old(self).frame_count() - 1
                &&& forall|i: int|
                    0 <= i < final(self).frame_count() ==> #[trigger] final(self).frame_at(i)
                        == old(self).frame_at(i)
                &&& forall|id: AllocId| #[trigger] final(self).live(id) == old(self).live(id)
                &&& forall|id: AllocId|
                    old(self).live(id) ==> protect_cleared(
                        old(self).info_of(id),
                        #[trigger] final(self).info_of(id),
                        id,
                        old(self).frame_at(old(self).frame_count() - 1),
                    )
            },
    {
        let ghost pre = *self;
        if self.frames.len() == 0 {
            return ;
        }
        let frame = match self.frames.pop() {
            Some(f) => f,
            None => {
                return ;
            },
        };
        let ghost fseq = frame@;
        let mut k: usize = 0;
        while k < frame.len()
            invariant
                pre.wf(),
                self.registry.wf(),
                self.shadow == pre.shadow,
                self.next_tag == pre.next_tag,
                self.frames@ == pre.frames@.subrange(0, pre.frames@.len() - 1),
                pre.frames@.len() > 0,
                fseq == frame@,
                fseq == pre.frames@[pre.frames@.len() - 1]@,
                k <= fseq.len(),
                forall|id: AllocId| #[trigger] self.registry.live(id) == pre.registry.live(id),
                forall|id: AllocId|
                    pre.registry.live(id) ==> protect_cleared(
                        pre.registry.info_of(id),
                        #[trigger] self.registry.info_of(id),
                        id,
                        fseq.take(k as int),
                    ),
            decreases frame.len() - k,
        {
            let entry = frame[k];
            let ghost reg_pre = self.registry;
            let taken = self.registry.take(entry.alloc_id);
            match taken {
                Some(info) => {
                    let AllocInfo { id, base, size: asize, mutability: amut, root_tag, tree } =
                        info;
                    match tree {
                        Some(mut t) => {
                            let ghost t_pre = t;
                            let _ur = t.unprotect(entry.bor_tag);
                            proof {
                                assert(reg_pre.info_of(entry.alloc_id).wf());
                                assert(t_pre.valid_index(0));
                                if t_pre.has_tag(entry.bor_tag) {
                                    t_pre.lemma_idx_of(entry.bor_tag);
                                    let a = t_pre.idx_of(entry.bor_tag);
                                    if a != 0 {
                                        assert(t_pre.node_unchanged(t, 0));
                                    }
                                }
                                assert(t.tag_at(0) == t_pre.tag_at(0));
                            }
                            self.registry.put(
                                entry.alloc_id,
                                AllocInfo {
                                    id,
                                    base,
                                    size: asize,
                                    mutability: amut,
                                    root_tag,
                                    tree: Some(t),
                                },
                            );
                            proof {
                                lemma_protect_step(
                                    pre,
                                    reg_pre,
                                    self.registry,
                                    fseq,
                                    k as int,
                                    entry,
                                    t_pre,
                                    t,
                                );
                            }
                        },
                        None => {
                            proof {
                                assert(reg_pre.info_of(entry.alloc_id).wf());
                            }
                            self.registry.put(
                                entry.alloc_id,
                                AllocInfo {
                                    id,
                                    base,
                                    size: asize,
                                    mutability: amut,
                                    root_tag,
                                    tree: None,
                                },
                            );
                            proof {
                                assert(self.registry.alloc_map() =~= reg_pre.alloc_map());
                                lemma_protect_skip(pre, reg_pre, self.registry, fseq, k as int);
                            }
                        },
                    }
                },
                None => {
                    proof {
                        assert(self.registry.alloc_map() =~= reg_pre.alloc_map());
                        lemma_protect_skip(pre, reg_pre, self.registry, fseq, k as int);
                    }
                },
            }
            k = k + 1;
        }
        proof {
            assert(fseq.take(fseq.len() as int) =~= fseq);
            assert forall|id2: AllocId|
                self.registry.live(id2) implies {
                let info2 = #[trigger] self.registry.info_of(id2);
                &&& info2.root_tag < self.next_tag
                &&& match info2.tree {
                    Some(t2) => forall|i: int|
                        t2.valid_index(i) ==> (#[trigger] t2.tag_at(i)) < self.next_tag,
                    None => true,
                }
            } by {
                assert(pre.registry.live(id2));
                let info0 = pre.registry.info_of(id2);
                assert(info0.root_tag < pre.next_tag);
                assert(protect_cleared(info0, self.registry.info_of(id2), id2, fseq));
                let info2 = self.registry.info_of(id2);
                match (info0.tree, info2.tree) {
                    (Some(t0), Some(t2)) => {
                        assert forall|i: int| t2.valid_index(i) implies (#[trigger] t2.tag_at(i))
                            < self.next_tag by {
                            assert(t0.valid_index(i));
                            assert(t2.tag_at(i) == t0.tag_at(i));
                            assert(t0.tag_at(i) < pre.next_tag);
                        }
                    },
                    _ => {},
                }
            }
            assert(self.wf());
        }
    }

    /// The exact outcome of exposing `prov` at `addr`.
    pub open spec fn expose_result_spec(self, addr: usize, prov: Provenance) -> Result<
        (),
        Violation,
    > {
        if !self.live(prov.alloc_id) {
            Err(Violation::UseAfterFree)
        } else {
            let info = self.info_of(prov.alloc_id);
            if !range_in_alloc(addr, 0, info) {
                Err(Violation::ProvenanceMismatch)
            } else {
                match info.tree {
                    Some(t) => if t.has_tag(prov.bor_tag) {
                        Ok(())
                    } else {
                        Err(Violation::ProvenanceMismatch)
                    },
                    None => if prov.bor_tag == info.root_tag {
                        Ok(())
                    } else {
                        Err(Violation::ProvenanceMismatch)
                    },
                }
            }
        }
    }

    /// Marks the borrow `prov` names as reachable through
    /// integer-to-pointer casts: a deliberate, documented escape hatch,
    /// recorded on the node.  Permissions and everything else stay as
    /// they are; before the first borrow there is no node and nothing
    /// to record.
    pub fn expose_tag(&mut self, addr: usize, prov: Provenance) -> (r: Result<(), Violation>)
        requires
            old(self).wf(),
        ensures
            final(self).wf(),
            r == old(self).expose_result_spec(addr, prov),
            !old(self).live(prov.alloc_id) ==> r == Err::<(), Violation>(Violation::UseAfterFree),
            old(self).shadow_unchanged(*final(self)),
            old(self).frames_unchanged(*final(self)),
            final(self).next_tag_spec() == old(self).next_tag_spec(),
            r is Err ==> old(self).allocs_unchanged(*final(self)),
            r is Ok ==> ({
                let info = old(self).info_of(prov.alloc_id);
                let post_info = final(self).info_of(prov.alloc_id);
                &&& forall|id: AllocId| #[trigger] final(self).live(id) == old(self).live(id)
                &&& forall|id: AllocId|
                    id != prov.alloc_id && old(self).live(id) ==> #[trigger] final(self).info_of(
                        id,
                    ) == old(self).info_of(id)
                &&& post_info.id == info.id
                &&& post_info.base == info.base
                &&& post_info.size == info.size
                &&& post_info.mutability == info.mutability
                &&& post_info.root_tag == info.root_tag
                &&& match (info.tree, post_info.tree) {
                    (None, None) => true,
                    (Some(t0), Some(t1)) => {
                        let a = t0.idx_of(prov.bor_tag);
                        &&& t1.node_count() == t0.node_count()
                        &&& t1.size_of() == t0.size_of()
                        &&& forall|i: int|
                            t0.valid_index(i) && i != a ==> t0.node_unchanged(t1, i)
                        &&& t1.tag_at(a) == t0.tag_at(a)
                        &&& t1.parent_at(a) == t0.parent_at(a)
                        &&& t1.protected_at(a) == t0.protected_at(a)
                        &&& t1.freeze_ok_at(a) == t0.freeze_ok_at(a)
                        &&& t1.exposed_at(a)
                        &&& forall|b: int|
                            0 <= b < t0.size_of() ==> t1.perm_at(a, b) == t0.perm_at(a, b)
                    },
                    _ => false,
                }
            }),
    {
        let ghost pre = *self;
        let info = match self.registry.take(prov.alloc_id) {
            Some(info) => info,
            None => {
                proof {
                    assert(self.registry.alloc_map() =~= pre.registry.alloc_map());
                    Self::lemma_wf_restore(pre, *self);
                }
                return Err(Violation::UseAfterFree);
            },
        };
        let AllocInfo { id, base, size: asize, mutability: amut, root_tag, tree } = info;
        if addr < base || addr - base > asize {
            self.registry.put(
                prov.alloc_id,
                AllocInfo { id, base, size: asize, mutability: amut, root_tag, tree },
            );
            proof {
                assert(self.registry.alloc_map() =~= pre.registry.alloc_map());
                Self::lemma_wf_restore(pre, *self);
            }
            return Err(Violation::ProvenanceMismatch);
        }
        match tree {
            None => {
                self.registry.put(
                    prov.alloc_id,
                    AllocInfo { id, base, size: asize, mutability: amut, root_tag, tree: None },
                );
                proof {
                    assert(self.registry.alloc_map() =~= pre.registry.alloc_map());
                    Self::lemma_wf_restore(pre, *self);
                }
                if prov.bor_tag == root_tag {
                    Ok(())
                } else {
                    Err(Violation::ProvenanceMismatch)
                }
            },
            Some(mut t) => {
                let ghost t_pre = t;
                let res = t.expose(prov.bor_tag);
                proof {
                    assert(pre.registry.info_of(prov.alloc_id).wf());
                    if res is Ok {
                        assert(t_pre.valid_index(0));
                        t_pre.lemma_idx_of(prov.bor_tag);
                        let a = t_pre.idx_of(prov.bor_tag);
                        if a != 0 {
                            assert(t_pre.node_unchanged(t, 0));
                        }
                        assert(t.tag_at(0) == t_pre.tag_at(0));
                    }
                }
                self.registry.put(
                    prov.alloc_id,
                    AllocInfo {
                        id,
                        base,
                        size: asize,
                        mutability: amut,
                        root_tag,
                        tree: Some(t),
                    },
                );
                proof {
                    if res is Err {
                        assert(self.registry.alloc_map() =~= pre.registry.alloc_map());
                        Self::lemma_wf_restore(pre, *self);
                    } else {
                        assert forall|id2: AllocId|
                            self.registry.live(id2) implies {
                            let info2 = #[trigger] self.registry.info_of(id2);
                            &&& info2.root_tag < self.next_tag
                            &&& match info2.tree {
                                Some(t2) => forall|i: int|
                                    t2.valid_index(i) ==> (#[trigger] t2.tag_at(i)) < self.next_tag,
                                None => true,
                            }
                        } by {
                            if id2 != prov.alloc_id {
                                assert(self.registry.info_of(id2) == pre.registry.info_of(id2));
                                assert(pre.registry.live(id2));
                                assert(pre.registry.info_of(id2).root_tag < pre.next_tag);
                            } else {
                                assert(pre.registry.info_of(id2).root_tag < pre.next_tag);
                                let a = t_pre.idx_of(prov.bor_tag);
                                assert forall|i: int| t.valid_index(i) implies (#[trigger] t.tag_at(
                                    i,
                                )) < self.next_tag by {
                                    assert(t_pre.valid_index(i));
                                    if i != a {
                                        assert(t_pre.node_unchanged(t, i));
                                    }
                                    assert(t.tag_at(i) == t_pre.tag_at(i));
                                    assert(t_pre.tag_at(i) < pre.next_tag);
                                }
                            }
                        }
                        assert(self.wf());
                    }
                }
                res
            },
        }
    }

    /// The provenance the shadow table currently records for the
    /// tracked word holding `addr`: the address-based observer's view,
    /// advisory and derived from the retags performed so far.
    pub fn provenance_at(&self, addr: usize) -> (r: Provenance)
        requires
            self.wf(),
            in_bound(addr),
        ensures
            r == self.shadow_at(addr),
    {
        self.shadow.load(addr)
    }
}

/// Once an allocation is no longer live — as after a successful
/// `on_dealloc` — every later access or deallocation attempt through
/// any provenance naming it reports `UseAfterFree`.
pub proof fn lemma_use_after_free(
    c: Context,
    addr: usize,
    size: usize,
    prov: Provenance,
    kind: AccessKind,
)
    requires
        !c.live(prov.alloc_id),
    ensures
        c.access_result_spec(addr, size, prov, kind) == Err::<(), Violation>(
            Violation::UseAfterFree,
        ),
        c.dealloc_result_spec(addr, prov) == Err::<(), Violation>(Violation::UseAfterFree),
{
}

/// One frame entry processed: unprotecting `entry.bor_tag` in its
/// allocation's tree extends `protect_cleared` from the frame's first
/// `k` entries to its first `k + 1`.
proof fn lemma_protect_step(
    pre: Context,
    reg_pre: AllocationRegistry,
    reg_post: AllocationRegistry,
    fseq: Seq<Provenance>,
    k: int,
    entry: Provenance,
    t_pre: Tree,
    t_post: Tree,
)
    requires
        0 <= k < fseq.len(),
        fseq[k] == entry,
        reg_pre.wf(),
        reg_pre.live(entry.alloc_id),
        reg_pre.info_of(entry.alloc_id).tree == Some(t_pre),
        t_pre.wf(),
        reg_post.live(entry.alloc_id),
        reg_post.info_of(entry.alloc_id).id == reg_pre.info_of(entry.alloc_id).id,
        reg_post.info_of(entry.alloc_id).base == reg_pre.info_of(entry.alloc_id).base,
        reg_post.info_of(entry.alloc_id).size == reg_pre.info_of(entry.alloc_id).size,
        reg_post.info_of(entry.alloc_id).mutability == reg_pre.info_of(entry.alloc_id).mutability,
        reg_post.info_of(entry.alloc_id).root_tag == reg_pre.info_of(entry.alloc_id).root_tag,
        reg_post.info_of(entry.alloc_id).tree == Some(t_post),
        forall|id: AllocId|
            id != entry.alloc_id ==> #[trigger] reg_post.live(id) == reg_pre.live(id),
        forall|id: AllocId|
            id != entry.alloc_id && reg_pre.live(id) ==> #[trigger] reg_post.info_of(id)
                == reg_pre.info_of(id),
        // the unprotect call's outcome, either way
        t_pre.has_tag(entry.bor_tag) ==> {
            let a = t_pre.idx_of(entry.bor_tag);
            &&& t_post.node_count() == t_pre.node_count()
            &&& t_post.size_of() == t_pre.size_of()
            &&& forall|i: int|
                t_pre.valid_index(i) && i != a ==> t_pre.node_unchanged(t_post, i)
            &&& t_post.tag_at(a) == t_pre.tag_at(a)
            &&& t_post.parent_at(a) == t_pre.parent_at(a)
            &&& !t_post.protected_at(a)
            &&& t_post.freeze_ok_at(a) == t_pre.freeze_ok_at(a)
            &&& t_post.exposed_at(a) == t_pre.exposed_at(a)
            &&& forall|b: int|
                0 <= b < t_pre.size_of() ==> t_post.perm_at(a, b) == t_pre.perm_at(a, b)
        },
        !t_pre.has_tag(entry.bor_tag) ==> t_post == t_pre,
        forall|id: AllocId| #[trigger] reg_pre.live(id) == pre.registry.live(id),
        forall|id: AllocId|
            pre.registry.live(id) ==> protect_cleared(
                pre.registry.info_of(id),
                #[trigger] reg_pre.info_of(id),
                id,
                fseq.take(k),
            ),
    ensures
        forall|id: AllocId| #[trigger] reg_post.live(id) == pre.registry.live(id),
        forall|id: AllocId|
            pre.registry.live(id) ==> protect_cleared(
                pre.registry.info_of(id),
                #[trigger] reg_post.info_of(id),
                id,
                fseq.take(k + 1),
            ),
{
    assert(fseq.take(k + 1) =~= fseq.take(k).push(entry));
    if t_pre.has_tag(entry.bor_tag) {
        t_pre.lemma_idx_of(entry.bor_tag);
    }
    // Bridge: every component of the tree but the one protector is kept.
    assert(t_post.node_count() == t_pre.node_count());
    assert(t_post.size_of() == t_pre.size_of());
    assert forall|i: int| t_pre.valid_index(i) implies #[trigger] t_post.tag_at(i)
        == t_pre.tag_at(i) by {
        if t_pre.has_tag(entry.bor_tag) {
            let a = t_pre.idx_of(entry.bor_tag);
            if i != a {
                assert(t_pre.node_unchanged(t_post, i));
            }
        }
    }
    assert forall|i: int| t_pre.valid_index(i) implies #[trigger] t_post.parent_at(i)
        == t_pre.parent_at(i) by {
        if t_pre.has_tag(entry.bor_tag) {
            let a = t_pre.idx_of(entry.bor_tag);
            if i != a {
                assert(t_pre.node_unchanged(t_post, i));
            }
        }
    }
    assert forall|i: int| t_pre.valid_index(i) implies #[trigger] t_post.freeze_ok_at(i)
        == t_pre.freeze_ok_at(i) by {
        if t_pre.has_tag(entry.bor_tag) {
            let a = t_pre.idx_of(entry.bor_tag);
            if i != a {
                assert(t_pre.node_unchanged(t_post, i));
            }
        }
    }
    assert forall|i: int| t_pre.valid_index(i) implies #[trigger] t_post.exposed_at(i)
        == t_pre.exposed_at(i) by {
        if t_pre.has_tag(entry.bor_tag) {
            let a = t_pre.idx_of(entry.bor_tag);
            if i != a {
                assert(t_pre.node_unchanged(t_post, i));
            }
        }
    }
    assert forall|i: int, b: int|
        t_pre.valid_index(i) && 0 <= b < t_pre.size_of() implies #[trigger] t_post.perm_at(i, b)
        == t_pre.perm_at(i, b) by {
        if t_pre.has_tag(entry.bor_tag) {
            let a = t_pre.idx_of(entry.bor_tag);
            if i != a {
                assert(t_pre.node_unchanged(t_post, i));
            }
        }
    }
    // The one protector: cleared exactly where the entry names the tag.
    assert forall|i: int| t_pre.valid_index(i) implies #[trigger] t_post.protected_at(i) == (
    t_pre.protected_at(i) && t_pre.tag_at(i) != entry.bor_tag) by {
        if t_pre.has_tag(entry.bor_tag) {
            let a = t_pre.idx_of(entry.bor_tag);
            if i == a {
                assert(!t_post.protected_at(i));
                assert(t_pre.tag_at(i) == entry.bor_tag);
            } else {
                assert(t_pre.node_unchanged(t_post, i));
                assert(t_pre.tag_at(i) != entry.bor_tag);
            }
        } else {
            assert(t_pre.tag_at(i) != entry.bor_tag);
        }
    }
    assert forall|id: AllocId| #[trigger] reg_post.live(id) == pre.registry.live(id) by {
        assert(reg_pre.live(id) == pre.registry.live(id));
        if id == entry.alloc_id {
            assert(reg_post.live(id));
            assert(reg_pre.live(id));
        }
    }
    assert forall|id: AllocId| pre.registry.live(id) implies protect_cleared(
        pre.registry.info_of(id),
        #[trigger] reg_post.info_of(id),
        id,
        fseq.take(k + 1),
    ) by {
        let orig = pre.registry.info_of(id);
        assert(reg_pre.live(id));
        let mid_info = reg_pre.info_of(id);
        assert(protect_cleared(orig, mid_info, id, fseq.take(k)));
        if id != entry.alloc_id {
            assert(reg_post.info_of(id) == mid_info);
            match (orig.tree, mid_info.tree) {
                (Some(t_orig), Some(t_cur)) => {
                    assert forall|i: int| t_orig.valid_index(i) implies #[trigger] t_cur
                        .protected_at(i) == (t_orig.protected_at(i) && !frame_mentions(
                        fseq.take(k + 1),
                        id,
                        t_orig.tag_at(i),
                    )) by {
                        assert(t_cur.protected_at(i) == (t_orig.protected_at(i)
                            && !frame_mentions(fseq.take(k), id, t_orig.tag_at(i))));
                        lemma_mentions_extend(fseq, k, id, t_orig.tag_at(i), entry);
                    }
                },
                _ => {},
            }
            assert(protect_cleared(orig, reg_post.info_of(id), id, fseq.take(k + 1)));
        } else {
            let post_info = reg_post.info_of(id);
            assert(mid_info.tree == Some(t_pre));
            assert(post_info.tree == Some(t_post));
            match orig.tree {
                Some(t_orig) => {
                    assert forall|i: int| t_orig.valid_index(i) implies #[trigger] t_post
                        .protected_at(i) == (t_orig.protected_at(i) && !frame_mentions(
                        fseq.take(k + 1),
                        id,
                        t_orig.tag_at(i),
                    )) by {
                        assert(t_pre.valid_index(i));
                        assert(t_pre.protected_at(i) == (t_orig.protected_at(i)
                            && !frame_mentions(fseq.take(k), id, t_orig.tag_at(i))));
                        assert(t_pre.tag_at(i) == t_orig.tag_at(i));
                        assert(t_post.protected_at(i) == (t_pre.protected_at(i) && t_pre.tag_at(
                            i,
                        ) != entry.bor_tag));
                        if t_orig.tag_at(i) == entry.bor_tag {
                            assert(fseq.take(k + 1)[k] == entry);
                            assert(frame_mentions(fseq.take(k + 1), id, t_orig.tag_at(i)));
                        } else {
                            lemma_mentions_extend(fseq, k, id, t_orig.tag_at(i), entry);
                        }
                    }
                    assert forall|i: int| t_orig.valid_index(i) implies #[trigger] t_post
                        .tag_at(i) == t_orig.tag_at(i) by {
                        assert(t_pre.valid_index(i));
                        assert(t_pre.tag_at(i) == t_orig.tag_at(i));
                    }
                    assert forall|i: int| t_orig.valid_index(i) implies #[trigger] t_post
                        .parent_at(i) == t_orig.parent_at(i) by {
                        assert(t_pre.valid_index(i));
                        assert(t_pre.parent_at(i) == t_orig.parent_at(i));
                    }
                    assert forall|i: int| t_orig.valid_index(i) implies #[trigger] t_post
                        .freeze_ok_at(i) == t_orig.freeze_ok_at(i) by {
                        assert(t_pre.valid_index(i));
                        assert(t_pre.freeze_ok_at(i) == t_orig.freeze_ok_at(i));
                    }
                    assert forall|i: int| t_orig.valid_index(i) implies #[trigger] t_post
                        .exposed_at(i) == t_orig.exposed_at(i) by {
                        assert(t_pre.valid_index(i));
                        assert(t_pre.exposed_at(i) == t_orig.exposed_at(i));
                    }
                    assert forall|i: int, b: int|
                        t_orig.valid_index(i) && 0 <= b < t_orig.size_of() implies #[trigger] t_post
                        .perm_at(i, b) == t_orig.perm_at(i, b) by {
                        assert(t_pre.valid_index(i));
                        assert(t_pre.perm_at(i, b) == t_orig.perm_at(i, b));
                    }
                    assert(protect_cleared(orig, post_info, id, fseq.take(k + 1)));
                },
                None => {
                    assert(mid_info.tree is None);
                    assert(false);
                },
            }
        }
    }
}

/// Extending the processed prefix by an entry that names another
/// allocation or another tag leaves `frame_mentions` as it was.
proof fn lemma_mentions_extend(
    fseq: Seq<Provenance>,
    k: int,
    id: AllocId,
    tag: BorTag,
    entry: Provenance,
)
    requires
        0 <= k < fseq.len(),
        fseq[k] == entry,
        !(entry.alloc_id == id && entry.bor_tag == tag),
    ensures
        frame_mentions(fseq.take(k + 1), id, tag) == frame_mentions(fseq.take(k), id, tag),
{
    if frame_mentions(fseq.take(k + 1), id, tag) {
        let w = choose|m: int|
            0 <= m < fseq.take(k + 1).len() && #[trigger] fseq.take(k + 1)[m] == (Provenance {
                alloc_id: id,
                bor_tag: tag,
            });
        if w == k {
            assert(fseq.take(k + 1)[k] == entry);
            assert(false);
        } else {
            assert(fseq.take(k)[w] == fseq.take(k + 1)[w]);
            assert(frame_mentions(fseq.take(k), id, tag));
        }
    }
    if frame_mentions(fseq.take(k), id, tag) {
        let w = choose|m: int|
            0 <= m < fseq.take(k).len() && #[trigger] fseq.take(k)[m] == (Provenance {
                alloc_id: id,
                bor_tag: tag,
            });
        assert(fseq.take(k + 1)[w] == fseq.take(k)[w]);
        assert(frame_mentions(fseq.take(k + 1), id, tag));
    }
}


/// A frame entry whose allocation is gone, or never grew a tree,
/// changes nothing; `protect_cleared` extends to it all the same.
proof fn lemma_protect_skip(
    pre: Context,
    reg_pre: AllocationRegistry,
    reg_post: AllocationRegistry,
    fseq: Seq<Provenance>,
    k: int,
)
    requires
        0 <= k < fseq.len(),
        reg_post.alloc_map() == reg_pre.alloc_map(),
        // the skipped entry constrains no node: its allocation is not
        // live, or its tree is absent
        !reg_pre.live(fseq[k].alloc_id) || (reg_pre.live(fseq[k].alloc_id)
            && reg_pre.info_of(fseq[k].alloc_id).tree is None),
        forall|id: AllocId| #[trigger] reg_pre.live(id) == pre.registry.live(id),
        forall|id: AllocId|
            pre.registry.live(id) ==> protect_cleared(
                pre.registry.info_of(id),
                #[trigger] reg_pre.info_of(id),
                id,
                fseq.take(k),
            ),
    ensures
        forall|id: AllocId| #[trigger] reg_post.live(id) == pre.registry.live(id),
        forall|id: AllocId|
            pre.registry.live(id) ==> protect_cleared(
                pre.registry.info_of(id),
                #[trigger] reg_post.info_of(id),
                id,
                fseq.take(k + 1),
            ),
{
    assert(fseq.take(k + 1) =~= fseq.take(k).push(fseq[k]));
    assert forall|id: AllocId| #[trigger] reg_post.live(id) == pre.registry.live(id) by {
        assert(reg_pre.live(id) == pre.registry.live(id));
    }
    assert forall|id: AllocId| pre.registry.live(id) implies protect_cleared(
        pre.registry.info_of(id),
        #[trigger] reg_post.info_of(id),
        id,
        fseq.take(k + 1),
    ) by {
        let orig = pre.registry.info_of(id);
        let cur = reg_pre.info_of(id);
        assert(reg_post.info_of(id) == cur);
        assert(protect_cleared(orig, cur, id, fseq.take(k)));
        match (orig.tree, cur.tree) {
            (Some(t_orig), Some(t_cur)) => {
                assert forall|i: int| t_orig.valid_index(i) implies #[trigger] t_cur.protected_at(
                    i,
                ) == (t_orig.protected_at(i) && !frame_mentions(
                    fseq.take(k + 1),
                    id,
                    t_orig.tag_at(i),
                )) by {
                    assert(t_cur.protected_at(i) == (t_orig.protected_at(i) && !frame_mentions(
                        fseq.take(k),
                        id,
                        t_orig.tag_at(i),
                    )));
                    assert(frame_mentions(fseq.take(k + 1), id, t_orig.tag_at(i))
                        == frame_mentions(fseq.take(k), id, t_orig.tag_at(i))) by {
                        if frame_mentions(fseq.take(k + 1), id, t_orig.tag_at(i)) {
                            let w = choose|m: int|
                                0 <= m < fseq.take(k + 1).len() && #[trigger] fseq.take(k + 1)[m]
                                    == (Provenance { alloc_id: id, bor_tag: t_orig.tag_at(i) });
                            if w == k {
                                // the entry's allocation is this live
                                // one, yet it was skipped
                                assert(fseq[k].alloc_id == id);
                                assert(reg_pre.live(id));
                                assert(reg_pre.info_of(id).tree is None);
                                assert(false);
                            } else {
                                assert(fseq.take(k)[w] == fseq.take(k + 1)[w]);
                            }
                        }
                        if frame_mentions(fseq.take(k), id, t_orig.tag_at(i)) {
                            let w = choose|m: int|
                                0 <= m < fseq.take(k).len() && #[trigger] fseq.take(k)[m] == (Provenance {
                                    alloc_id: id,
                                    bor_tag: t_orig.tag_at(i),
                                });
                            assert(fseq.take(k + 1)[w] == fseq.take(k)[w]);
                        }
                    }
                }
            },
            _ => {},
        }
    }
}

} // verus!
