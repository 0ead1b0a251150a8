//! Borrow-tree behaviour: permission decay, protectors, deallocation.

use bsan_rt::tree::AccessKind;
use bsan_rt::tree::Mutability;
use bsan_rt::tree::PlaceKind;
use bsan_rt::tree::RetagKind;
use bsan_rt::tree::Tree;
use bsan_rt::tree::Violation;

#[test]
fn root_tag_round_trip() {
    let t = Tree::new(16, 42);
    assert_eq!(t.get_root_borrow_tag(), 42);
}

#[test]
fn root_reads_and_writes() {
    let mut t = Tree::new(16, 1);
    assert_eq!(t.access(1, AccessKind::Read, 0, 16), Ok(()));
    assert_eq!(t.access(1, AccessKind::Write, 0, 16), Ok(()));
    // An unknown tag is a provenance mismatch.
    assert_eq!(
        t.access(9, AccessKind::Read, 0, 16),
        Err(Violation::ProvenanceMismatch)
    );
}

#[test]
fn unique_child_promotes_on_write() {
    let mut t = Tree::new(16, 1);
    assert_eq!(
        t.retag(1, 2, RetagKind::Default, PlaceKind::Default, Mutability::Mutable, false),
        Ok(())
    );
    // Reserved: readable and writable; the write promotes to Active.
    assert_eq!(t.access(2, AccessKind::Read, 0, 16), Ok(()));
    assert_eq!(t.access(2, AccessKind::Write, 0, 8), Ok(()));
    assert_eq!(t.access(2, AccessKind::Write, 0, 8), Ok(()));
}

#[test]
fn frozen_child_rejects_writes() {
    let mut t = Tree::new(16, 1);
    assert_eq!(
        t.retag(1, 2, RetagKind::Default, PlaceKind::Freeze, Mutability::Immutable, false),
        Ok(())
    );
    assert_eq!(t.access(2, AccessKind::Read, 0, 16), Ok(()));
    assert_eq!(
        t.access(2, AccessKind::Write, 0, 16),
        Err(Violation::ForeignWriteWhileFrozen)
    );
}

#[test]
fn foreign_read_never_disables_sibling() {
    let mut t = Tree::new(16, 1);
    // An interior-mutable unique sibling, which a foreign read leaves
    // Reserved, and a shared one holding Frozen.
    t.retag(1, 2, RetagKind::Default, PlaceKind::Unpin, Mutability::Mutable, false)
        .unwrap();
    t.retag(1, 3, RetagKind::Default, PlaceKind::Freeze, Mutability::Immutable, false)
        .unwrap();
    // The read through the shared tag is foreign to the others.
    assert_eq!(t.access(3, AccessKind::Read, 0, 16), Ok(()));
    // Nothing was disabled: every node still reads.
    assert_eq!(t.access(2, AccessKind::Read, 0, 16), Ok(()));
    assert_eq!(t.access(1, AccessKind::Read, 0, 16), Ok(()));
    // The interior-mutable sibling even kept its write permission.
    assert_eq!(t.access(2, AccessKind::Write, 0, 16), Ok(()));
}

#[test]
fn foreign_read_freezes_freezeable_reserved() {
    let mut t = Tree::new(16, 1);
    // A freezeable unique borrow decays to Frozen, never to Disabled,
    // under a foreign read: it keeps reading, only its write is gone.
    t.retag(1, 2, RetagKind::Default, PlaceKind::Freeze, Mutability::Mutable, false)
        .unwrap();
    assert_eq!(t.access(1, AccessKind::Read, 0, 16), Ok(()));
    assert_eq!(t.access(2, AccessKind::Read, 0, 16), Ok(()));
    assert_eq!(
        t.access(2, AccessKind::Write, 0, 16),
        Err(Violation::ForeignWriteWhileFrozen)
    );
}

#[test]
fn foreign_write_disables_every_other_node() {
    let mut t = Tree::new(16, 1);
    t.retag(1, 2, RetagKind::Default, PlaceKind::Default, Mutability::Mutable, false)
        .unwrap();
    t.retag(1, 3, RetagKind::Default, PlaceKind::Freeze, Mutability::Immutable, false)
        .unwrap();
    // A write through the root is foreign to both children.
    assert_eq!(t.access(1, AccessKind::Write, 0, 16), Ok(()));
    assert_eq!(
        t.access(2, AccessKind::Read, 0, 16),
        Err(Violation::ChildAccessAfterParentDisabled)
    );
    assert_eq!(
        t.access(3, AccessKind::Read, 0, 16),
        Err(Violation::ChildAccessAfterParentDisabled)
    );
}

#[test]
fn decay_is_monotone() {
    let mut t = Tree::new(16, 1);
    t.retag(1, 2, RetagKind::Default, PlaceKind::Default, Mutability::Mutable, false)
        .unwrap();
    t.access(1, AccessKind::Write, 0, 16).unwrap();
    assert_eq!(
        t.access(2, AccessKind::Read, 0, 16),
        Err(Violation::ChildAccessAfterParentDisabled)
    );
    // Nothing the tree accepts afterwards restores the lost permission.
    t.access(1, AccessKind::Read, 0, 16).unwrap();
    t.access(1, AccessKind::Write, 0, 16).unwrap();
    assert_eq!(
        t.access(2, AccessKind::Read, 0, 16),
        Err(Violation::ChildAccessAfterParentDisabled)
    );
    // A raw reborrow of the disabled node inherits the disablement.
    t.retag(2, 4, RetagKind::Raw, PlaceKind::Default, Mutability::Mutable, false)
        .unwrap();
    assert_eq!(
        t.access(4, AccessKind::Read, 0, 16),
        Err(Violation::ChildAccessAfterParentDisabled)
    );
}

#[test]
fn partial_overlap_disables_only_touched_bytes() {
    let mut t = Tree::new(16, 1);
    t.retag(1, 2, RetagKind::Default, PlaceKind::Default, Mutability::Mutable, false)
        .unwrap();
    // The root writes only the first half.
    assert_eq!(t.access(1, AccessKind::Write, 0, 8), Ok(()));
    // The child lost the first half but keeps the second.
    assert_eq!(
        t.access(2, AccessKind::Read, 0, 8),
        Err(Violation::ChildAccessAfterParentDisabled)
    );
    assert_eq!(t.access(2, AccessKind::Read, 8, 16), Ok(()));
}

#[test]
fn protected_node_rejects_foreign_write() {
    let mut t = Tree::new(16, 1);
    t.retag(1, 2, RetagKind::FnEntry, PlaceKind::Default, Mutability::Mutable, true)
        .unwrap();
    assert_eq!(
        t.access(1, AccessKind::Write, 0, 16),
        Err(Violation::ProtectorViolation)
    );
    // The rejection applied nothing: the protected child is intact.
    assert_eq!(t.access(2, AccessKind::Read, 0, 16), Ok(()));
    // Once unprotected, the same write goes through.
    t.unprotect(2).unwrap();
    assert_eq!(t.access(1, AccessKind::Write, 0, 16), Ok(()));
    assert_eq!(
        t.access(2, AccessKind::Read, 0, 16),
        Err(Violation::ChildAccessAfterParentDisabled)
    );
}

#[test]
fn dealloc_needs_active_and_invalidates() {
    let mut t = Tree::new(16, 1);
    t.retag(1, 2, RetagKind::Default, PlaceKind::Default, Mutability::Mutable, false)
        .unwrap();
    // The child is only Reserved: not enough to free.
    assert_eq!(
        t.dealloc_access(2),
        Err(Violation::ChildAccessAfterParentDisabled)
    );
    // The root holds Active everywhere and may free; afterwards every
    // node of the tree is permanently inaccessible.
    assert_eq!(t.dealloc_access(1), Ok(()));
    assert_eq!(
        t.access(1, AccessKind::Read, 0, 16),
        Err(Violation::ChildAccessAfterParentDisabled)
    );
    assert_eq!(
        t.access(2, AccessKind::Read, 0, 16),
        Err(Violation::ChildAccessAfterParentDisabled)
    );
}

#[test]
fn dealloc_through_frozen_tag_fails() {
    let mut t = Tree::new(8, 1);
    t.retag(1, 2, RetagKind::Default, PlaceKind::Freeze, Mutability::Immutable, false)
        .unwrap();
    assert_eq!(t.dealloc_access(2), Err(Violation::ForeignWriteWhileFrozen));
}

#[test]
fn dealloc_with_live_protector_fails() {
    let mut t = Tree::new(8, 1);
    t.retag(1, 2, RetagKind::FnEntry, PlaceKind::Default, Mutability::Mutable, true)
        .unwrap();
    assert_eq!(t.dealloc_access(1), Err(Violation::ProtectorViolation));
    t.unprotect(2).unwrap();
    assert_eq!(t.dealloc_access(1), Ok(()));
}

#[test]
fn expose_leaves_permissions_alone() {
    let mut t = Tree::new(8, 1);
    assert_eq!(t.expose(1), Ok(()));
    assert_eq!(t.expose(9), Err(Violation::ProvenanceMismatch));
    assert_eq!(t.access(1, AccessKind::Write, 0, 8), Ok(()));
}
