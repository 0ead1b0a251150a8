//! The per-allocation tree of borrow nodes with decaying permissions.
//!
//! Each allocation owns at most one tree.  A node models one borrow of
//! the allocation and carries, for every byte of the allocation, the
//! permission that borrow currently holds on the byte, plus a protector
//! flag set while the function frame that created the borrow is live.
//!
//! Permissions only decay.  A read or write through one node may lower
//! the permission every *other* (foreign) node holds on the touched
//! bytes; once a node is `Disabled` for a byte it stays `Disabled` for
//! that byte forever.  A transition that would disable a protected node
//! is reported as a violation instead of being applied, and in that
//! case the whole operation leaves the tree unchanged.

use vstd::prelude::*;

verus! {

/// Identifies one borrow node within one tree, for its whole existence.
/// Zero is invalid and never names a node.
pub type BorTag = u64;

/// Per-byte access right a borrow node holds.
#[derive(Debug, Clone, Copy, PartialEq, Eq, Structural)]
pub enum Permission {
    /// A unique borrow that has not yet been written through.
    Reserved,
    /// A unique borrow with full read/write rights.
    Active,
    /// A shared borrow: readable, never writable.
    Frozen,
    /// All rights lost; decay ends here and is irreversible.
    Disabled,
}

/// What an instrumented memory access does.
#[derive(Debug, Clone, Copy, PartialEq, Eq, Structural)]
pub enum AccessKind {
    Read,
    Write,
}

/// Why a new borrow is being created.
#[derive(Debug, Clone, Copy, PartialEq, Eq, Structural)]
pub enum RetagKind {
    /// Ordinary reborrow.
    Default,
    /// Implicit retag of a by-reference argument on function entry.
    FnEntry,
    /// A reservation that later becomes a full unique borrow.
    TwoPhase,
    /// Minimal-restriction raw-pointer reborrow.
    Raw,
}

/// Whether the pointee's type permits the `Frozen` state.
#[derive(Debug, Clone, Copy, PartialEq, Eq, Structural)]
pub enum PlaceKind {
    /// The pointee forbids aliased mutation and may become `Frozen`.
    Freeze,
    /// The pointee allows aliased mutation and is never `Frozen`.
    Unpin,
    Default,
}

/// Mutability of the reference a retag models.
#[derive(Debug, Clone, Copy, PartialEq, Eq, Structural)]
pub enum Mutability {
    Mutable,
    Immutable,
}

/// A checked-program violation.  Every detected violation is reported
/// to the caller, never silently downgraded to success.
#[derive(Debug, Clone, Copy, PartialEq, Eq, Structural)]
pub enum Violation {
    /// An access through a node that has lost its permission on one of
    /// the touched bytes.  Also reported when a deallocation is
    /// attempted through a node that never gained `Active` rights.
    ChildAccessAfterParentDisabled,
    /// A transition would disable a node while its protector is live.
    ProtectorViolation,
    /// A write is attempted on a byte the acting node only holds
    /// `Frozen` (read-only) permission for.
    ForeignWriteWhileFrozen,
    /// Provenance names an allocation that is no longer live.
    UseAfterFree,
    /// Provenance does not match the allocation or tag it is used on.
    ProvenanceMismatch,
}

/// One borrow node.
struct Node {
    tag: BorTag,
    /// Absent exactly for the root.
    parent: Option<BorTag>,
    /// One permission per byte of the allocation.
    perms: Vec<Permission>,
    /// True while the function frame that created the borrow is live.
    protected: bool,
    /// Whether this node's place kind permits `Frozen`.
    freeze_ok: bool,
    /// Whether the tag was exposed to integer-pointer casts.
    exposed: bool,
}

/// The borrow tree of one allocation.  The root models the allocation's
/// original right and sits at index 0.
pub struct Tree {
    /// Size in bytes of the allocation the tree covers.
    size: usize,
    /// Every node ever created for this allocation; never removed.
    nodes: Vec<Node>,
}

impl Tree {
    /// Size in bytes of the allocation this tree covers.
    pub closed spec fn size_of(self) -> int {
        self.size as int
    }

    /// Number of nodes ever created in this tree.
    pub closed spec fn node_count(self) -> int {
        self.nodes.len() as int
    }

    pub open spec fn valid_index(self, i: int) -> bool {
        0 <= i < self.node_count()
    }

    pub closed spec fn tag_at(self, i: int) -> BorTag {
        self.nodes[i].tag
    }

    pub closed spec fn parent_at(self, i: int) -> Option<BorTag> {
        self.nodes[i].parent
    }

    pub closed spec fn perm_at(self, i: int, b: int) -> Permission {
        self.nodes[i].perms[b]
    }

    pub closed spec fn protected_at(self, i: int) -> bool {
        self.nodes[i].protected
    }

    pub closed spec fn freeze_ok_at(self, i: int) -> bool {
        self.nodes[i].freeze_ok
    }

    pub closed spec fn exposed_at(self, i: int) -> bool {
        self.nodes[i].exposed
    }

    /// Some node carries this tag.
    pub open spec fn has_tag(self, t: BorTag) -> bool {
        exists|i: int| self.valid_index(i) && self.tag_at(i) == t
    }

    /// Index of the node carrying tag `t` (meaningful when `has_tag`).
    pub open spec fn idx_of(self, t: BorTag) -> int {
        choose|i: int| self.valid_index(i) && self.tag_at(i) == t
    }

    /// Every permission row spans the whole allocation.
    pub closed spec fn row_ok(self, i: int) -> bool {
        self.nodes[i].perms.len() == self.size
    }

    /// The node's parent link names an older node.
    pub open spec fn parent_link_ok(self, i: int) -> bool {
        exists|j: int| 0 <= j < i && self.parent_at(i) == Some(self.tag_at(j))
    }

    /// Structural well-formedness: at least a root; nonzero, pairwise
    /// distinct tags; full permission rows; the root parentless and
    /// every other node linked to an older node.
    pub open spec fn wf(self) -> bool {
        &&& self.node_count() >= 1
        &&& forall|i: int| self.valid_index(i) ==> #[trigger] self.tag_at(i) != 0
        &&& forall|i: int, j: int|
            self.valid_index(i) && self.valid_index(j) && i != j ==> #[trigger] self.tag_at(i)
                != #[trigger] self.tag_at(j)
        &&& forall|i: int| self.valid_index(i) ==> #[trigger] self.row_ok(i)
        &&& self.parent_at(0) is None
        &&& forall|i: int| 1 <= i < self.node_count() ==> #[trigger] self.parent_link_ok(i)
    }

    /// In a well-formed tree, `idx_of` names the one node with tag `t`.
    pub proof fn lemma_idx_of(self, t: BorTag)
        requires
            self.wf(),
            self.has_tag(t),
        ensures
            self.valid_index(self.idx_of(t)),
            self.tag_at(self.idx_of(t)) == t,
            forall|i: int| self.valid_index(i) && self.tag_at(i) == t ==> i == self.idx_of(t),
    {
    }

    /// Builds the tree for an allocation of `alloc_size` bytes.  The
    /// root node models the allocation's original right and starts
    /// `Active` over the whole allocation.
    pub fn new(alloc_size: usize, root_tag: BorTag) -> (t: Tree)
        requires
            root_tag != 0,
        ensures
            t.wf(),
            t.size_of() == alloc_size as int,
            t.node_count() == 1,
            t.tag_at(0) == root_tag,
            t.parent_at(0) is None,
            !t.protected_at(0),
            !t.exposed_at(0),
            forall|b: int| 0 <= b < alloc_size as int ==> t.perm_at(0, b) == Permission::Active,
    {
        let perms = filled_row(alloc_size, Permission::Active);
        let root = Node {
            tag: root_tag,
            parent: None,
            perms,
            protected: false,
            freeze_ok: true,
            exposed: false,
        };
        let mut nodes: Vec<Node> = Vec::new();
        nodes.push(root);
        Tree { size: alloc_size, nodes }
    }

    /// Tag of the root node.
    pub fn get_root_borrow_tag(&self) -> (r: BorTag)
        requires
            self.wf(),
        ensures
            r == self.tag_at(0),
            r != 0,
            self.has_tag(r),
    {
        proof {
            assert(self.valid_index(0));
        }
        self.nodes[0].tag
    }

    /// Index of the node carrying `tag`, if any.
    fn find(&self, tag: BorTag) -> (r: Option<usize>)
        ensures
            match r {
                Some(i) => self.valid_index(i as int) && self.tag_at(i as int) == tag,
                None => !self.has_tag(tag),
            },
    {
        let mut i: usize = 0;
        while i < self.nodes.len()
            invariant
                i <= self.nodes.len(),
                forall|k: int| 0 <= k < i ==> #[trigger] self.tag_at(k) != tag,
            decreases self.nodes.len() - i,
        {
            if self.nodes[i].tag == tag {
                return Some(i);
            }
            i = i + 1;
        }
        None
    }
}

/// Permission a byte of the *accessing* node holds after the access:
/// a legal write promotes `Reserved` to `Active`; nothing else moves.
pub open spec fn accessor_after(kind: AccessKind, p: Permission) -> Permission {
    if kind is Write && p is Reserved {
        Permission::Active
    } else {
        p
    }
}

/// Permission a touched byte of a *foreign* node (any node other than
/// the accessing one, ancestor or descendant alike) holds after the
/// access.  A foreign write revokes everything.  A foreign read leaves
/// `Active` and `Frozen` alone and freezes a `Reserved` byte when the
/// node's place kind permits `Frozen`; a `Reserved` byte of an
/// interior-mutable place stays `Reserved`.
pub open spec fn foreign_after(kind: AccessKind, p: Permission, freeze_ok: bool) -> Permission {
    match kind {
        AccessKind::Read => if p is Reserved && freeze_ok {
            Permission::Frozen
        } else {
            p
        },
        AccessKind::Write => Permission::Disabled,
    }
}

impl Tree {
    /// Some byte of `[start, end)` is `Disabled` for node `a`.
    pub open spec fn accessor_disabled_hit(self, a: int, start: int, end: int) -> bool {
        exists|b: int| start <= b < end && (#[trigger] self.perm_at(a, b)) is Disabled
    }

    /// Some byte of `[start, end)` is `Frozen` for node `a`.
    pub open spec fn accessor_frozen_hit(self, a: int, start: int, end: int) -> bool {
        exists|b: int| start <= b < end && (#[trigger] self.perm_at(a, b)) is Frozen
    }

    /// Some node other than `a` is protected and still holds permission
    /// on a byte of `[start, end)`, which a write would disable.
    pub open spec fn protector_hit(self, a: int, start: int, end: int) -> bool {
        exists|i: int, b: int|
            self.valid_index(i) && i != a && start <= b < end && self.protected_at(i) && !((
            #[trigger] self.perm_at(i, b)) is Disabled)
    }

    /// The exact outcome `access` reports.  A read is legal unless the
    /// acting node is `Disabled` on a touched byte; a write also needs
    /// the node not to be `Frozen` there, and is rejected outright when
    /// it would disable a still-protected foreign node.
    pub open spec fn access_result(
        self,
        tag: BorTag,
        kind: AccessKind,
        start: int,
        end: int,
    ) -> Result<(), Violation> {
        if !self.has_tag(tag) {
            Err(Violation::ProvenanceMismatch)
        } else {
            let a = self.idx_of(tag);
            if self.accessor_disabled_hit(a, start, end) {
                Err(Violation::ChildAccessAfterParentDisabled)
            } else if kind is Write && self.accessor_frozen_hit(a, start, end) {
                Err(Violation::ForeignWriteWhileFrozen)
            } else if kind is Write && self.protector_hit(a, start, end) {
                Err(Violation::ProtectorViolation)
            } else {
                Ok(())
            }
        }
    }

    /// Permission of byte `b` of node `i` after node `a` performs an
    /// access of kind `kind` on `[start, end)`.
    pub open spec fn byte_after(
        self,
        i: int,
        b: int,
        a: int,
        kind: AccessKind,
        start: int,
        end: int,
    ) -> Permission {
        if !(start <= b < end) {
            self.perm_at(i, b)
        } else if i == a {
            accessor_after(kind, self.perm_at(i, b))
        } else {
            foreign_after(kind, self.perm_at(i, b), self.freeze_ok_at(i))
        }
    }

    /// `post` and `self` agree on everything but permissions.
    pub open spec fn same_shape(self, post: Tree) -> bool {
        &&& post.size_of() == self.size_of()
        &&& post.node_count() == self.node_count()
        &&& forall|i: int| self.valid_index(i) ==> #[trigger] post.tag_at(i) == self.tag_at(i)
        &&& forall|i: int|
            self.valid_index(i) ==> #[trigger] post.parent_at(i) == self.parent_at(i)
        &&& forall|i: int|
            self.valid_index(i) ==> #[trigger] post.protected_at(i) == self.protected_at(i)
        &&& forall|i: int|
            self.valid_index(i) ==> #[trigger] post.freeze_ok_at(i) == self.freeze_ok_at(i)
        &&& forall|i: int|
            self.valid_index(i) ==> #[trigger] post.exposed_at(i) == self.exposed_at(i)
    }

    /// `post` is `self` after node `a` performed the access: same shape,
    /// every byte of every node transformed by `byte_after`.
    pub open spec fn access_applied(
        self,
        post: Tree,
        a: int,
        kind: AccessKind,
        start: int,
        end: int,
    ) -> bool {
        &&& self.same_shape(post)
        &&& forall|i: int, b: int|
            self.valid_index(i) && 0 <= b < self.size_of() ==> #[trigger] post.perm_at(i, b)
                == self.byte_after(i, b, a, kind, start, end)
    }

    /// Checks and applies one read or write through the node tagged
    /// `tag` over the byte range `[start, end)` of the allocation.
    ///
    /// On success the acting node's touched `Reserved` bytes are
    /// promoted on a write, and every foreign node's touched bytes
    /// decay per `foreign_after`.  On any violation the tree is left
    /// exactly as it was.  Decay is monotone: a byte once `Disabled`
    /// stays `Disabled`, whatever the outcome.  A read never newly
    /// disables any byte of any node; a permitted write disables every
    /// touched byte of every foreign node.
    pub fn access(&mut self, tag: BorTag, kind: AccessKind, start: usize, end: usize) -> (r:
        Result<(), Violation>)
        requires
            old(self).wf(),
            start <= end,
            end as int <= old(self).size_of(),
        ensures
            final(self).wf(),
            final(self).size_of() == old(self).size_of(),
            r == old(self).access_result(tag, kind, start as int, end as int),
            r is Err ==> *final(self) == *old(self),
            r is Ok ==> old(self).access_applied(
                *final(self),
                old(self).idx_of(tag),
                kind,
                start as int,
                end as int,
            ),
            forall|i: int, b: int|
                old(self).valid_index(i) && 0 <= b < old(self).size_of() && (#[trigger] old(self).perm_at(i, b)) is Disabled ==> final(self).perm_at(i, b) is Disabled,
            kind is Read ==> forall|i: int, b: int|
                old(self).valid_index(i) && 0 <= b < old(self).size_of() && (#[trigger] final(self).perm_at(i, b)) is Disabled ==> old(self).perm_at(i, b) is Disabled,
            r is Ok && kind is Write ==> forall|i: int, b: int|
                old(self).valid_index(i) && i != old(self).idx_of(tag) && start <= b < end ==> (
                #[trigger] final(self).perm_at(i, b)) is Disabled,
    {
        let ghost pre = *self;
        let a = match self.find(tag) {
            Some(i) => i,
            None => {
                return Err(Violation::ProvenanceMismatch);
            },
        };
        proof {
            pre.lemma_idx_of(tag);
            assert(pre.idx_of(tag) == a as int);
        }
        // Pass 1: no touched byte of the acting node may be Disabled.
        let mut b: usize = start;
        while b < end
            invariant
                *self == pre,
                pre.wf(),
                start <= b <= end,
                end as int <= pre.size_of(),
                pre.valid_index(a as int),
                pre.tag_at(a as int) == tag,
                forall|k: int| start <= k < b ==> !((#[trigger] pre.perm_at(a as int, k)) is Disabled),
            decreases end - b,
        {
            proof {
                assert(pre.row_ok(a as int));
            }
            if self.nodes[a].perms[b] == Permission::Disabled {
                proof {
                    pre.lemma_idx_of(tag);
                    assert(pre.perm_at(a as int, b as int) is Disabled);
                    assert(pre.accessor_disabled_hit(a as int, start as int, end as int));
                }
                return Err(Violation::ChildAccessAfterParentDisabled);
            }
            b = b + 1;
        }
        // Pass 2: a write needs write permission, so no touched byte of
        // the acting node may be Frozen either.
        if kind == AccessKind::Write {
            let mut b2: usize = start;
            while b2 < end
                invariant
                    *self == pre,
                    pre.wf(),
                    start <= b2 <= end,
                    end as int <= pre.size_of(),
                    pre.valid_index(a as int),
                    pre.tag_at(a as int) == tag,
                    kind is Write,
                    forall|k: int|
                        start <= k < end ==> !((#[trigger] pre.perm_at(a as int, k)) is Disabled),
                    forall|k: int|
                        start <= k < b2 ==> !((#[trigger] pre.perm_at(a as int, k)) is Frozen),
                decreases end - b2,
            {
                proof {
                    assert(pre.row_ok(a as int));
                }
                if self.nodes[a].perms[b2] == Permission::Frozen {
                    proof {
                        pre.lemma_idx_of(tag);
                        assert(!pre.accessor_disabled_hit(a as int, start as int, end as int));
                        assert(pre.perm_at(a as int, b2 as int) is Frozen);
                        assert(pre.accessor_frozen_hit(a as int, start as int, end as int));
                    }
                    return Err(Violation::ForeignWriteWhileFrozen);
                }
                b2 = b2 + 1;
            }
        }
        // Pass 3: a write must not disable a still-protected foreign
        // node; the whole operation is rejected before any byte moves.
        if kind == AccessKind::Write {
            let mut i: usize = 0;
            while i < self.nodes.len()
                invariant
                    *self == pre,
                    pre.wf(),
                    start <= end,
                    end as int <= pre.size_of(),
                    pre.valid_index(a as int),
                    pre.tag_at(a as int) == tag,
                    kind is Write,
                    i <= pre.node_count(),
                    forall|k: int|
                        start <= k < end ==> !((#[trigger] pre.perm_at(a as int, k)) is Disabled),
                    forall|k: int|
                        start <= k < end ==> !((#[trigger] pre.perm_at(a as int, k)) is Frozen),
                    forall|k: int, bb: int|
                        0 <= k < i && k != a as int && start <= bb < end && pre.protected_at(k)
                            ==> (#[trigger] pre.perm_at(k, bb)) is Disabled,
                decreases self.nodes.len() - i,
            {
                if i != a && self.nodes[i].protected {
                    let mut bb: usize = start;
                    while bb < end
                        invariant
                            *self == pre,
                            pre.wf(),
                            start <= bb <= end,
                            end as int <= pre.size_of(),
                            pre.valid_index(a as int),
                            pre.valid_index(i as int),
                            pre.tag_at(a as int) == tag,
                            pre.protected_at(i as int),
                            kind is Write,
                            i != a,
                            forall|k: int|
                                start <= k < end ==> !((#[trigger] pre.perm_at(
                                    a as int,
                                    k,
                                )) is Disabled),
                            forall|k: int|
                                start <= k < end ==> !((#[trigger] pre.perm_at(
                                    a as int,
                                    k,
                                )) is Frozen),
                            forall|k: int|
                                start <= k < bb ==> (#[trigger] pre.perm_at(i as int, k)) is Disabled,
                        decreases end - bb,
                    {
                        proof {
                            assert(pre.row_ok(i as int));
                        }
                        if !(self.nodes[i].perms[bb] == Permission::Disabled) {
                            proof {
                                pre.lemma_idx_of(tag);
                                assert(!pre.accessor_disabled_hit(
                                    a as int,
                                    start as int,
                                    end as int,
                                ));
                                assert(!pre.accessor_frozen_hit(a as int, start as int, end as int));
                                assert(!((pre.perm_at(i as int, bb as int)) is Disabled));
                                assert(pre.protector_hit(a as int, start as int, end as int));
                            }
                            return Err(Violation::ProtectorViolation);
                        }
                        bb = bb + 1;
                    }
                }
                i = i + 1;
            }
        }
        proof {
            pre.lemma_idx_of(tag);
            assert(!pre.accessor_disabled_hit(a as int, start as int, end as int));
            assert(kind is Write ==> !pre.accessor_frozen_hit(a as int, start as int, end as int));
            assert(kind is Write ==> !pre.protector_hit(a as int, start as int, end as int));
        }
        // Apply: rebuild every node's row through the transition table.
        let mut new_nodes: Vec<Node> = Vec::new();
        let mut i: usize = 0;
        while i < self.nodes.len()
            invariant
                *self == pre,
                pre.wf(),
                start <= end,
                end as int <= pre.size_of(),
                pre.valid_index(a as int),
                pre.tag_at(a as int) == tag,
                pre.idx_of(tag) == a as int,
                !pre.accessor_disabled_hit(a as int, start as int, end as int),
                kind is Write ==> !pre.accessor_frozen_hit(a as int, start as int, end as int),
                kind is Write ==> !pre.protector_hit(a as int, start as int, end as int),
                i <= pre.node_count(),
                new_nodes.len() == i,
                forall|k: int|
                    0 <= k < i ==> {
                        &&& (#[trigger] new_nodes[k]).tag == pre.tag_at(k)
                        &&& new_nodes[k].parent == pre.parent_at(k)
                        &&& new_nodes[k].protected == pre.protected_at(k)
                        &&& new_nodes[k].freeze_ok == pre.freeze_ok_at(k)
                        &&& new_nodes[k].exposed == pre.exposed_at(k)
                        &&& new_nodes[k].perms.len() as int == pre.size_of()
                        &&& forall|bb: int|
                            0 <= bb < pre.size_of() ==> #[trigger] new_nodes[k].perms[bb]
                                == pre.byte_after(k, bb, a as int, kind, start as int, end as int)
                    },
            decreases self.nodes.len() - i,
        {
            let node = &self.nodes[i];
            let is_acc = i == a;
            let row = transformed_row(&node.perms, is_acc, node.freeze_ok, kind, start, end);
            proof {
                assert(pre.row_ok(i as int));
            }
            new_nodes.push(
                Node {
                    tag: node.tag,
                    parent: node.parent,
                    perms: row,
                    protected: node.protected,
                    freeze_ok: node.freeze_ok,
                    exposed: node.exposed,
                },
            );
            i = i + 1;
        }
        self.nodes = new_nodes;
        proof {
            assert(pre.access_applied(*self, a as int, kind, start as int, end as int));
            assert forall|t2: BorTag| self.has_tag(t2) implies pre.has_tag(t2) by {
                let w = choose|j: int| self.valid_index(j) && self.tag_at(j) == t2;
                assert(pre.valid_index(w) && pre.tag_at(w) == t2);
            }
            assert forall|j: int| 1 <= j < self.node_count() implies #[trigger] self
                .parent_link_ok(j) by {
                assert(pre.parent_link_ok(j));
                let w = choose|k: int| 0 <= k < j && pre.parent_at(j) == Some(pre.tag_at(k));
                assert(self.parent_at(j) == Some(self.tag_at(w)));
            }
            assert(self.wf());
        }
        Ok(())
    }
}

/// Permission a fresh borrow starts with.  A raw-pointer reborrow adds
/// no restriction and inherits the parent's current permission.  A
/// mutable (unique or two-phase) reborrow starts `Reserved`: nothing
/// has been written through the new tag yet.  A shared reborrow starts
/// `Frozen`, except over an interior-mutable (`Unpin`) place, which is
/// never tracked as `Frozen` and starts `Reserved` instead.
pub open spec fn initial_perm(
    kind: RetagKind,
    place: PlaceKind,
    mutability: Mutability,
    parent_perm: Permission,
) -> Permission {
    if kind is Raw {
        parent_perm
    } else if mutability is Mutable {
        Permission::Reserved
    } else if place is Unpin {
        Permission::Reserved
    } else {
        Permission::Frozen
    }
}

impl Tree {
    /// Node `i` is bitwise the same in `post` as in `self`.
    pub open spec fn node_unchanged(self, post: Tree, i: int) -> bool {
        &&& post.tag_at(i) == self.tag_at(i)
        &&& post.parent_at(i) == self.parent_at(i)
        &&& post.protected_at(i) == self.protected_at(i)
        &&& post.freeze_ok_at(i) == self.freeze_ok_at(i)
        &&& post.exposed_at(i) == self.exposed_at(i)
        &&& forall|b: int| 0 <= b < self.size_of() ==> post.perm_at(i, b) == self.perm_at(i, b)
    }

    /// `post` is `self` with exactly one node appended: the child of
    /// the node tagged `parent_tag`, carrying `new_tag`, protected as
    /// requested, unexposed, starting with `initial_perm` on every
    /// byte.  Every existing node is untouched.
    pub open spec fn retag_applied(
        self,
        post: Tree,
        parent_tag: BorTag,
        new_tag: BorTag,
        kind: RetagKind,
        place: PlaceKind,
        mutability: Mutability,
        protected: bool,
    ) -> bool {
        let p = self.idx_of(parent_tag);
        let n = self.node_count();
        &&& post.size_of() == self.size_of()
        &&& post.node_count() == n + 1
        &&& forall|i: int| self.valid_index(i) ==> self.node_unchanged(post, i)
        &&& post.tag_at(n) == new_tag
        &&& post.parent_at(n) == Some(parent_tag)
        &&& post.protected_at(n) == protected
        &&& !post.exposed_at(n)
        &&& post.freeze_ok_at(n) == !(place is Unpin)
        &&& forall|b: int|
            0 <= b < self.size_of() ==> post.perm_at(n, b) == initial_perm(
                kind,
                place,
                mutability,
                self.perm_at(p, b),
            )
        &&& post.has_tag(new_tag)
    }

    /// Creates a child of the node tagged `parent_tag`, carrying the
    /// fresh tag `new_tag`.  The child starts with `initial_perm` on
    /// every byte and is unexposed; `protected` sets its protector (a
    /// function-entry retag is protected for the frame that made it);
    /// every existing node is left untouched.  Fails with
    /// `ProvenanceMismatch` exactly when the parent tag names no node
    /// of this tree.
    pub fn retag(
        &mut self,
        parent_tag: BorTag,
        new_tag: BorTag,
        kind: RetagKind,
        place: PlaceKind,
        mutability: Mutability,
        protected: bool,
    ) -> (r: Result<(), Violation>)
        requires
            old(self).wf(),
            new_tag != 0,
            !old(self).has_tag(new_tag),
        ensures
            final(self).wf(),
            final(self).size_of() == old(self).size_of(),
            r == (if old(self).has_tag(parent_tag) {
                Result::<(), Violation>::Ok(())
            } else {
                Result::<(), Violation>::Err(Violation::ProvenanceMismatch)
            }),
            r is Err ==> *final(self) == *old(self),
            r is Ok ==> old(self).retag_applied(
                *final(self),
                parent_tag,
                new_tag,
                kind,
                place,
                mutability,
                protected,
            ),
    {
        let ghost pre = *self;
        let p = match self.find(parent_tag) {
            Some(i) => i,
            None => {
                return Err(Violation::ProvenanceMismatch);
            },
        };
        proof {
            pre.lemma_idx_of(parent_tag);
            assert(pre.row_ok(p as int));
        }
        let size = self.size;
        let mut row: Vec<Permission> = Vec::new();
        let mut b: usize = 0;
        while b < size
            invariant
                *self == pre,
                pre.wf(),
                pre.valid_index(p as int),
                pre.row_ok(p as int),
                size as int == pre.size_of(),
                b <= size,
                row.len() == b,
                forall|k: int|
                    0 <= k < b ==> #[trigger] row[k] == initial_perm(
                        kind,
                        place,
                        mutability,
                        pre.perm_at(p as int, k),
                    ),
            decreases size - b,
        {
            let q = initial_perm_exec(kind, place, mutability, self.nodes[p].perms[b]);
            row.push(q);
            b = b + 1;
        }
        let freeze_ok = !(place == PlaceKind::Unpin);
        self.nodes.push(
            Node {
                tag: new_tag,
                parent: Some(parent_tag),
                perms: row,
                protected,
                freeze_ok,
                exposed: false,
            },
        );
        proof {
            let n = pre.node_count();
            assert forall|i: int| pre.valid_index(i) implies pre.node_unchanged(*self, i) by {
                assert(self.nodes[i] == pre.nodes[i]);
            }
            assert(self.tag_at(n) == new_tag);
            assert forall|i: int, j: int|
                self.valid_index(i) && self.valid_index(j) && i != j implies self.tag_at(i)
                != self.tag_at(j) by {
                if i < n && j < n {
                    assert(pre.tag_at(i) == self.tag_at(i) && pre.tag_at(j) == self.tag_at(j));
                } else if i == n {
                    assert(pre.valid_index(j) && pre.tag_at(j) == self.tag_at(j));
                    assert(!pre.has_tag(new_tag));
                } else {
                    assert(pre.valid_index(i) && pre.tag_at(i) == self.tag_at(i));
                    assert(!pre.has_tag(new_tag));
                }
            }
            assert forall|i: int| 1 <= i < self.node_count() implies #[trigger] self
                .parent_link_ok(i) by {
                if i < n {
                    assert(pre.parent_link_ok(i) || i == 0);
                    if i >= 1 {
                        let w = choose|k: int| 0 <= k < i && pre.parent_at(i) == Some(
                            pre.tag_at(k),
                        );
                        assert(self.parent_at(i) == Some(self.tag_at(w)));
                    }
                } else {
                    assert(self.parent_at(n) == Some(self.tag_at(p as int)));
                }
            }
            assert forall|i: int| self.valid_index(i) implies #[trigger] self.row_ok(i) by {
                if i < n {
                    assert(pre.row_ok(i));
                } else {
                    assert(self.nodes[i].perms.len() == self.size);
                }
            }
            assert forall|i: int| self.valid_index(i) implies #[trigger] self.tag_at(i) != 0 by {
                if i < n {
                    assert(self.nodes[i] == pre.nodes[i]);
                    assert(pre.tag_at(i) != 0);
                }
            }
            assert(self.nodes[0] == pre.nodes[0]);
            assert(self.parent_at(0) is None);
            assert(self.wf());
        }
        Ok(())
    }

    /// Marks the node tagged `tag` as protected: while the flag stands,
    /// any transition that would disable the node is rejected as a
    /// `ProtectorViolation` instead of being applied.  Nothing else
    /// changes.  Fails with `ProvenanceMismatch` exactly when the tag
    /// names no node.
    pub fn protect(&mut self, tag: BorTag) -> (r: Result<(), Violation>)
        requires
            old(self).wf(),
        ensures
            final(self).wf(),
            final(self).size_of() == old(self).size_of(),
            final(self).node_count() == old(self).node_count(),
            r == (if old(self).has_tag(tag) {
                Result::<(), Violation>::Ok(())
            } else {
                Result::<(), Violation>::Err(Violation::ProvenanceMismatch)
            }),
            r is Err ==> *final(self) == *old(self),
            r is Ok ==> ({
                let a = old(self).idx_of(tag);
                &&& forall|i: int|
                    old(self).valid_index(i) && i != a ==> old(self).node_unchanged(
                        *final(self),
                        i,
                    )
                &&& final(self).tag_at(a) == tag
                &&& final(self).parent_at(a) == old(self).parent_at(a)
                &&& final(self).protected_at(a)
                &&& final(self).freeze_ok_at(a) == old(self).freeze_ok_at(a)
                &&& final(self).exposed_at(a) == old(self).exposed_at(a)
                &&& forall|b: int|
                    0 <= b < old(self).size_of() ==> final(self).perm_at(a, b) == old(self).perm_at(
                        a,
                        b,
                    )
            }),
    {
        self.set_flags(tag, true, None)
    }

    /// Clears the node's protector at function exit.  Nothing else
    /// changes.  Fails with `ProvenanceMismatch` exactly when the tag
    /// names no node.
    pub fn unprotect(&mut self, tag: BorTag) -> (r: Result<(), Violation>)
        requires
            old(self).wf(),
        ensures
            final(self).wf(),
            final(self).size_of() == old(self).size_of(),
            final(self).node_count() == old(self).node_count(),
            r == (if old(self).has_tag(tag) {
                Result::<(), Violation>::Ok(())
            } else {
                Result::<(), Violation>::Err(Violation::ProvenanceMismatch)
            }),
            r is Err ==> *final(self) == *old(self),
            r is Ok ==> ({
                let a = old(self).idx_of(tag);
                &&& forall|i: int|
                    old(self).valid_index(i) && i != a ==> old(self).node_unchanged(
                        *final(self),
                        i,
                    )
                &&& final(self).tag_at(a) == tag
                &&& final(self).parent_at(a) == old(self).parent_at(a)
                &&& !final(self).protected_at(a)
                &&& final(self).freeze_ok_at(a) == old(self).freeze_ok_at(a)
                &&& final(self).exposed_at(a) == old(self).exposed_at(a)
                &&& forall|b: int|
                    0 <= b < old(self).size_of() ==> final(self).perm_at(a, b) == old(self).perm_at(
                        a,
                        b,
                    )
            }),
    {
        self.set_flags(tag, false, None)
    }

    /// Records that the tag was exposed to an integer-pointer cast: a
    /// deliberate escape hatch noted on the node.  Permissions are not
    /// affected.  Fails with `ProvenanceMismatch` exactly when the tag
    /// names no node.
    pub fn expose(&mut self, tag: BorTag) -> (r: Result<(), Violation>)
        requires
            old(self).wf(),
        ensures
            final(self).wf(),
            final(self).size_of() == old(self).size_of(),
            final(self).node_count() == old(self).node_count(),
            r == (if old(self).has_tag(tag) {
                Result::<(), Violation>::Ok(())
            } else {
                Result::<(), Violation>::Err(Violation::ProvenanceMismatch)
            }),
            r is Err ==> *final(self) == *old(self),
            r is Ok ==> ({
                let a = old(self).idx_of(tag);
                &&& forall|i: int|
                    old(self).valid_index(i) && i != a ==> old(self).node_unchanged(
                        *final(self),
                        i,
                    )
                &&& final(self).tag_at(a) == tag
                &&& final(self).parent_at(a) == old(self).parent_at(a)
                &&& final(self).protected_at(a) == old(self).protected_at(a)
                &&& final(self).freeze_ok_at(a) == old(self).freeze_ok_at(a)
                &&& final(self).exposed_at(a)
                &&& forall|b: int|
                    0 <= b < old(self).size_of() ==> final(self).perm_at(a, b) == old(self).perm_at(
                        a,
                        b,
                    )
            }),
    {
        self.set_flags(tag, false, Some(true))
    }

    /// Rewrites one node's flags: `protected` from the pair, `exposed`
    /// only when `set_exposed` carries a value (in which case the
    /// protector is kept as it was).
    fn set_flags(&mut self, tag: BorTag, protected: bool, set_exposed: Option<bool>) -> (r: Result<
        (),
        Violation,
    >)
        requires
            old(self).wf(),
        ensures
            final(self).wf(),
            final(self).size_of() == old(self).size_of(),
            final(self).node_count() == old(self).node_count(),
            r == (if old(self).has_tag(tag) {
                Result::<(), Violation>::Ok(())
            } else {
                Result::<(), Violation>::Err(Violation::ProvenanceMismatch)
            }),
            r is Err ==> *final(self) == *old(self),
            r is Ok ==> ({
                let a = old(self).idx_of(tag);
                &&& forall|i: int|
                    old(self).valid_index(i) && i != a ==> old(self).node_unchanged(
                        *final(self),
                        i,
                    )
                &&& final(self).tag_at(a) == tag
                &&& final(self).parent_at(a) == old(self).parent_at(a)
                &&& final(self).protected_at(a) == (if set_exposed is Some {
                    old(self).protected_at(a)
                } else {
                    protected
                })
                &&& final(self).freeze_ok_at(a) == old(self).freeze_ok_at(a)
                &&& final(self).exposed_at(a) == (if set_exposed is Some {
                    set_exposed->0
                } else {
                    old(self).exposed_at(a)
                })
                &&& forall|b: int|
                    0 <= b < old(self).size_of() ==> final(self).perm_at(a, b) == old(self).perm_at(
                        a,
                        b,
                    )
            }),
    {
        let ghost pre = *self;
        let a = match self.find(tag) {
            Some(i) => i,
            None => {
                return Err(Violation::ProvenanceMismatch);
            },
        };
        proof {
            pre.lemma_idx_of(tag);
            assert(pre.row_ok(a as int));
        }
        let node_tag = self.nodes[a].tag;
        let node_parent = self.nodes[a].parent;
        let node_protected = self.nodes[a].protected;
        let node_freeze_ok = self.nodes[a].freeze_ok;
        let node_exposed = self.nodes[a].exposed;
        let row = copy_row(&self.nodes[a].perms);
        let (new_protected, new_exposed) = match set_exposed {
            Some(e) => (node_protected, e),
            None => (protected, node_exposed),
        };
        self.nodes.set(
            a,
            Node {
                tag: node_tag,
                parent: node_parent,
                perms: row,
                protected: new_protected,
                freeze_ok: node_freeze_ok,
                exposed: new_exposed,
            },
        );
        proof {
            assert forall|i: int| pre.valid_index(i) && i != a as int implies pre.node_unchanged(
                *self,
                i,
            ) by {
                assert(self.nodes[i] == pre.nodes[i]);
            }
            assert forall|b: int| 0 <= b < pre.size_of() implies self.perm_at(a as int, b)
                == pre.perm_at(a as int, b) by {
                assert(self.nodes[a as int].perms@ == pre.nodes[a as int].perms@);
            }
            assert forall|t2: BorTag| self.has_tag(t2) implies pre.has_tag(t2) by {
                let w = choose|j: int| self.valid_index(j) && self.tag_at(j) == t2;
                assert(pre.valid_index(w) && pre.tag_at(w) == t2);
            }
            assert forall|j: int| 1 <= j < self.node_count() implies #[trigger] self
                .parent_link_ok(j) by {
                assert(pre.parent_link_ok(j));
                let w = choose|k: int| 0 <= k < j && pre.parent_at(j) == Some(pre.tag_at(k));
                assert(self.parent_at(j) == Some(self.tag_at(w)));
            }
            assert forall|i: int| self.valid_index(i) implies #[trigger] self.row_ok(i) by {
                assert(pre.row_ok(i));
                if i == a as int {
                    assert(self.nodes[i].perms@ == pre.nodes[i].perms@);
                }
            }
            assert forall|i: int| self.valid_index(i) implies #[trigger] self.tag_at(i)
                == pre.tag_at(i) by {
                if i != a as int {
                    assert(self.nodes[i] == pre.nodes[i]);
                }
            }
            assert forall|i: int, j: int|
                self.valid_index(i) && self.valid_index(j) && i != j implies self.tag_at(i)
                != self.tag_at(j) by {
                assert(self.tag_at(i) == pre.tag_at(i));
                assert(self.tag_at(j) == pre.tag_at(j));
            }
            assert forall|i: int| self.valid_index(i) implies #[trigger] self.tag_at(i) != 0 by {
                assert(self.tag_at(i) == pre.tag_at(i));
                assert(pre.tag_at(i) != 0);
            }
            assert(self.parent_at(0) == pre.parent_at(0));
            assert(self.wf());
        }
        Ok(())
    }

    /// Some node still holds permission on some byte while protected.
    pub open spec fn any_protected_live(self) -> bool {
        exists|i: int, b: int|
            self.valid_index(i) && 0 <= b < self.size_of() && self.protected_at(i) && !((
            #[trigger] self.perm_at(i, b)) is Disabled)
    }

    /// Some byte of the whole allocation is `Reserved` for node `a`.
    pub open spec fn accessor_reserved_hit(self, a: int, start: int, end: int) -> bool {
        exists|b: int| start <= b < end && (#[trigger] self.perm_at(a, b)) is Reserved
    }

    /// The exact outcome `dealloc_access` reports.  Deallocation acts
    /// as a write over the whole allocation and additionally demands
    /// full `Active` permission on the acting node; it must not revoke
    /// any still-protected borrow, its own included.
    pub open spec fn dealloc_result(self, tag: BorTag) -> Result<(), Violation> {
        if !self.has_tag(tag) {
            Err(Violation::ProvenanceMismatch)
        } else {
            let a = self.idx_of(tag);
            if self.accessor_disabled_hit(a, 0, self.size_of()) {
                Err(Violation::ChildAccessAfterParentDisabled)
            } else if self.accessor_frozen_hit(a, 0, self.size_of()) {
                Err(Violation::ForeignWriteWhileFrozen)
            } else if self.accessor_reserved_hit(a, 0, self.size_of()) {
                Err(Violation::ChildAccessAfterParentDisabled)
            } else if self.any_protected_live() {
                Err(Violation::ProtectorViolation)
            } else {
                Ok(())
            }
        }
    }

    /// Checks the deallocation of the whole allocation through the node
    /// tagged `tag` and, on success, invalidates the entire tree: every
    /// byte of every node becomes permanently `Disabled`.  On any
    /// violation the tree is left exactly as it was.
    pub fn dealloc_access(&mut self, tag: BorTag) -> (r: Result<(), Violation>)
        requires
            old(self).wf(),
        ensures
            final(self).wf(),
            final(self).size_of() == old(self).size_of(),
            r == old(self).dealloc_result(tag),
            r is Err ==> *final(self) == *old(self),
            r is Ok ==> old(self).same_shape(*final(self)) && forall|i: int, b: int|
                old(self).valid_index(i) && 0 <= b < old(self).size_of()
                    ==> (#[trigger] final(self).perm_at(i, b)) is Disabled,
            forall|i: int, b: int|
                old(self).valid_index(i) && 0 <= b < old(self).size_of()
                    && (#[trigger] old(self).perm_at(i, b)) is Disabled
                    ==> final(self).perm_at(i, b) is Disabled,
    {
        let ghost pre = *self;
        let a = match self.find(tag) {
            Some(i) => i,
            None => {
                return Err(Violation::ProvenanceMismatch);
            },
        };
        let size = self.size;
        // Pass 1: the acting node must not have lost any byte.
        let mut b: usize = 0;
        while b < size
            invariant
                *self == pre,
                pre.wf(),
                size as int == pre.size_of(),
                b <= size,
                pre.valid_index(a as int),
                pre.tag_at(a as int) == tag,
                forall|k: int| 0 <= k < b ==> !((#[trigger] pre.perm_at(a as int, k)) is Disabled),
            decreases size - b,
        {
            proof {
                assert(pre.row_ok(a as int));
            }
            if self.nodes[a].perms[b] == Permission::Disabled {
                proof {
                    pre.lemma_idx_of(tag);
                    assert(pre.perm_at(a as int, b as int) is Disabled);
                    assert(pre.accessor_disabled_hit(a as int, 0, pre.size_of()));
                }
                return Err(Violation::ChildAccessAfterParentDisabled);
            }
            b = b + 1;
        }
        // Pass 2: no byte may be read-only.
        let mut b2: usize = 0;
        while b2 < size
            invariant
                *self == pre,
                pre.wf(),
                size as int == pre.size_of(),
                b2 <= size,
                pre.valid_index(a as int),
                pre.tag_at(a as int) == tag,
                forall|k: int| 0 <= k < size ==> !((#[trigger] pre.perm_at(a as int, k)) is Disabled),
                forall|k: int| 0 <= k < b2 ==> !((#[trigger] pre.perm_at(a as int, k)) is Frozen),
            decreases size - b2,
        {
            proof {
                assert(pre.row_ok(a as int));
            }
            if self.nodes[a].perms[b2] == Permission::Frozen {
                proof {
                    pre.lemma_idx_of(tag);
                    assert(!pre.accessor_disabled_hit(a as int, 0, pre.size_of()));
                    assert(pre.perm_at(a as int, b2 as int) is Frozen);
                    assert(pre.accessor_frozen_hit(a as int, 0, pre.size_of()));
                }
                return Err(Violation::ForeignWriteWhileFrozen);
            }
            b2 = b2 + 1;
        }
        // Pass 3: deallocation demands at least Active, so a byte never
        // written through the tag rejects it too.
        let mut b3: usize = 0;
        while b3 < size
            invariant
                *self == pre,
                pre.wf(),
                size as int == pre.size_of(),
                b3 <= size,
                pre.valid_index(a as int),
                pre.tag_at(a as int) == tag,
                forall|k: int| 0 <= k < size ==> !((#[trigger] pre.perm_at(a as int, k)) is Disabled),
                forall|k: int| 0 <= k < size ==> !((#[trigger] pre.perm_at(a as int, k)) is Frozen),
                forall|k: int| 0 <= k < b3 ==> !((#[trigger] pre.perm_at(a as int, k)) is Reserved),
            decreases size - b3,
        {
            proof {
                assert(pre.row_ok(a as int));
            }
            if self.nodes[a].perms[b3] == Permission::Reserved {
                proof {
                    pre.lemma_idx_of(tag);
                    assert(!pre.accessor_disabled_hit(a as int, 0, pre.size_of()));
                    assert(!pre.accessor_frozen_hit(a as int, 0, pre.size_of()));
                    assert(pre.perm_at(a as int, b3 as int) is Reserved);
                    assert(pre.accessor_reserved_hit(a as int, 0, pre.size_of()));
                }
                return Err(Violation::ChildAccessAfterParentDisabled);
            }
            b3 = b3 + 1;
        }
        // Pass 4: invalidating the tree disables every node, so no node
        // may still be protected with permission left.
        let mut i: usize = 0;
        while i < self.nodes.len()
            invariant
                *self == pre,
                pre.wf(),
                size as int == pre.size_of(),
                pre.valid_index(a as int),
                pre.tag_at(a as int) == tag,
                i <= pre.node_count(),
                forall|k: int| 0 <= k < size ==> !((#[trigger] pre.perm_at(a as int, k)) is Disabled),
                forall|k: int| 0 <= k < size ==> !((#[trigger] pre.perm_at(a as int, k)) is Frozen),
                forall|k: int| 0 <= k < size ==> !((#[trigger] pre.perm_at(a as int, k)) is Reserved),
                forall|k: int, bb: int|
                    0 <= k < i && 0 <= bb < size && pre.protected_at(k) ==> (#[trigger] pre.perm_at(
                        k,
                        bb,
                    )) is Disabled,
            decreases self.nodes.len() - i,
        {
            if self.nodes[i].protected {
                let mut bb: usize = 0;
                while bb < size
                    invariant
                        *self == pre,
                        pre.wf(),
                        size as int == pre.size_of(),
                        bb <= size,
                        pre.valid_index(a as int),
                        pre.valid_index(i as int),
                        pre.tag_at(a as int) == tag,
                        pre.protected_at(i as int),
                        forall|k: int|
                            0 <= k < size ==> !((#[trigger] pre.perm_at(a as int, k)) is Disabled),
                        forall|k: int|
                            0 <= k < size ==> !((#[trigger] pre.perm_at(a as int, k)) is Frozen),
                        forall|k: int|
                            0 <= k < size ==> !((#[trigger] pre.perm_at(a as int, k)) is Reserved),
                        forall|k: int|
                            0 <= k < bb ==> (#[trigger] pre.perm_at(i as int, k)) is Disabled,
                    decreases size - bb,
                {
                    proof {
                        assert(pre.row_ok(i as int));
                    }
                    if !(self.nodes[i].perms[bb] == Permission::Disabled) {
                        proof {
                            pre.lemma_idx_of(tag);
                            assert(!pre.accessor_disabled_hit(a as int, 0, pre.size_of()));
                            assert(!pre.accessor_frozen_hit(a as int, 0, pre.size_of()));
                            assert(!pre.accessor_reserved_hit(a as int, 0, pre.size_of()));
                            assert(!((pre.perm_at(i as int, bb as int)) is Disabled));
                            assert(pre.any_protected_live());
                        }
                        return Err(Violation::ProtectorViolation);
                    }
                    bb = bb + 1;
                }
            }
            i = i + 1;
        }
        // Invalidate: every node loses everything, permanently.
        let mut new_nodes: Vec<Node> = Vec::new();
        let mut j: usize = 0;
        while j < self.nodes.len()
            invariant
                *self == pre,
                pre.wf(),
                size as int == pre.size_of(),
                pre.valid_index(a as int),
                pre.tag_at(a as int) == tag,
                pre.idx_of(tag) == a as int,
                !pre.accessor_disabled_hit(a as int, 0, pre.size_of()),
                !pre.accessor_frozen_hit(a as int, 0, pre.size_of()),
                !pre.accessor_reserved_hit(a as int, 0, pre.size_of()),
                !pre.any_protected_live(),
                j <= pre.node_count(),
                new_nodes.len() == j,
                forall|k: int|
                    0 <= k < j ==> {
                        &&& (#[trigger] new_nodes[k]).tag == pre.tag_at(k)
                        &&& new_nodes[k].parent == pre.parent_at(k)
                        &&& new_nodes[k].protected == pre.protected_at(k)
                        &&& new_nodes[k].freeze_ok == pre.freeze_ok_at(k)
                        &&& new_nodes[k].exposed == pre.exposed_at(k)
                        &&& new_nodes[k].perms.len() as int == pre.size_of()
                        &&& forall|bb: int|
                            0 <= bb < pre.size_of() ==> (#[trigger] new_nodes[k].perms[bb]) is Disabled
                    },
            decreases self.nodes.len() - j,
        {
            let node = &self.nodes[j];
            let row = filled_row(size, Permission::Disabled);
            new_nodes.push(
                Node {
                    tag: node.tag,
                    parent: node.parent,
                    perms: row,
                    protected: node.protected,
                    freeze_ok: node.freeze_ok,
                    exposed: node.exposed,
                },
            );
            j = j + 1;
        }
        self.nodes = new_nodes;
        proof {
            pre.lemma_idx_of(tag);
            assert forall|t2: BorTag| self.has_tag(t2) implies pre.has_tag(t2) by {
                let w = choose|k: int| self.valid_index(k) && self.tag_at(k) == t2;
                assert(pre.valid_index(w) && pre.tag_at(w) == t2);
            }
            assert forall|k: int| 1 <= k < self.node_count() implies #[trigger] self
                .parent_link_ok(k) by {
                assert(pre.parent_link_ok(k));
                let w = choose|m: int| 0 <= m < k && pre.parent_at(k) == Some(pre.tag_at(m));
                assert(self.parent_at(k) == Some(self.tag_at(w)));
            }
            assert(self.wf());
        }
        Ok(())
    }
}

/// A write through a tag that itself holds write permission, but that
/// would disable a byte of a still-protected foreign node, is reported
/// as `ProtectorViolation` — never applied silently as a success.
pub proof fn lemma_protected_write_reports_violation(t: Tree, tag: BorTag, start: int, end: int)
    requires
        t.wf(),
        t.has_tag(tag),
        !t.accessor_disabled_hit(t.idx_of(tag), start, end),
        !t.accessor_frozen_hit(t.idx_of(tag), start, end),
        t.protector_hit(t.idx_of(tag), start, end),
    ensures
        t.access_result(tag, AccessKind::Write, start, end) == Err::<(), Violation>(
            Violation::ProtectorViolation,
        ),
{
}

/// Exact copy of a permission row.
fn copy_row(row: &Vec<Permission>) -> (out: Vec<Permission>)
    ensures
        out@ == row@,
{
    let mut out: Vec<Permission> = Vec::new();
    let mut i: usize = 0;
    while i < row.len()
        invariant
            i <= row.len(),
            out.len() == i,
            forall|k: int| 0 <= k < i ==> out[k] == row[k],
        decreases row.len() - i,
    {
        out.push(row[i]);
        i = i + 1;
    }
    proof {
        assert(out@ =~= row@);
    }
    out
}

/// Executable form of `initial_perm`.
fn initial_perm_exec(
    kind: RetagKind,
    place: PlaceKind,
    mutability: Mutability,
    parent_perm: Permission,
) -> (r: Permission)
    ensures
        r == initial_perm(kind, place, mutability, parent_perm),
{
    if kind == RetagKind::Raw {
        parent_perm
    } else if mutability == Mutability::Mutable {
        Permission::Reserved
    } else if place == PlaceKind::Unpin {
        Permission::Reserved
    } else {
        Permission::Frozen
    }
}

/// One node's permission row after an access of kind `kind` on
/// `[start, end)`; `is_acc` says whether the row belongs to the acting
/// node itself.
fn transformed_row(
    row: &Vec<Permission>,
    is_acc: bool,
    freeze_ok: bool,
    kind: AccessKind,
    start: usize,
    end: usize,
) -> (out: Vec<Permission>)
    ensures
        out.len() == row.len(),
        forall|b: int|
            0 <= b < row.len() ==> #[trigger] out[b] == (if start <= b < end as int {
                if is_acc {
                    accessor_after(kind, row[b])
                } else {
                    foreign_after(kind, row[b], freeze_ok)
                }
            } else {
                row[b]
            }),
{
    let mut out: Vec<Permission> = Vec::new();
    let mut b: usize = 0;
    while b < row.len()
        invariant
            b <= row.len(),
            out.len() == b,
            forall|k: int|
                0 <= k < b ==> #[trigger] out[k] == (if start <= k < end as int {
                    if is_acc {
                        accessor_after(kind, row[k])
                    } else {
                        foreign_after(kind, row[k], freeze_ok)
                    }
                } else {
                    row[k]
                }),
        decreases row.len() - b,
    {
        let p = row[b];
        let q = if b >= start && b < end {
            if is_acc {
                if kind == AccessKind::Write && p == Permission::Reserved {
                    Permission::Active
                } else {
                    p
                }
            } else {
                match kind {
                    AccessKind::Read => if p == Permission::Reserved && freeze_ok {
                        Permission::Frozen
                    } else {
                        p
                    },
                    AccessKind::Write => Permission::Disabled,
                }
            }
        } else {
            p
        };
        out.push(q);
        b = b + 1;
    }
    out
}

/// A permission row of `n` bytes, all holding `p`.
fn filled_row(n: usize, p: Permission) -> (v: Vec<Permission>)
    ensures
        v.len() == n,
        forall|b: int| 0 <= b < n ==> v[b] == p,
{
    let mut v: Vec<Permission> = Vec::new();
    let mut i: usize = 0;
    while i < n
        invariant
            i <= n,
            v.len() == i,
            forall|b: int| 0 <= b < i ==> v[b] == p,
        decreases n - i,
    {
        v.push(p);
        i = i + 1;
    }
    v
}

} // verus!
