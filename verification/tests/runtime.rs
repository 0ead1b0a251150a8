//! End-to-end behaviour of the runtime context: allocation lifecycle,
//! retagging, access checking, protectors and the shadow observer.

use bsan_rt::runtime::Context;
use bsan_rt::runtime::Provenance;
use bsan_rt::runtime::RuntimeError;
use bsan_rt::tree::Mutability;
use bsan_rt::tree::PlaceKind;
use bsan_rt::tree::RetagKind;
use bsan_rt::tree::Violation;

const A: usize = 0x4000;

#[test]
fn alloc_returns_nonzero_provenance() {
    let mut ctx = Context::new();
    let p = ctx.on_alloc(A, 16).unwrap();
    assert_ne!(p.alloc_id, 0);
    assert_ne!(p.bor_tag, 0);
    assert_eq!(ctx.on_read(A, 16, p), Ok(()));
    assert_eq!(ctx.on_write(A, 16, p), Ok(()));
}

#[test]
fn distinct_allocations_get_distinct_ids() {
    let mut ctx = Context::new();
    let p1 = ctx.on_alloc(A, 16).unwrap();
    let p2 = ctx.on_alloc(A + 0x1000, 8).unwrap();
    assert_ne!(p1.alloc_id, p2.alloc_id);
    assert_ne!(p1.bor_tag, p2.bor_tag);
}

#[test]
fn out_of_range_access_is_mismatch() {
    let mut ctx = Context::new();
    let p = ctx.on_alloc(A, 16).unwrap();
    assert_eq!(ctx.on_read(A + 8, 9, p), Err(Violation::ProvenanceMismatch));
    assert_eq!(ctx.on_write(A - 1, 4, p), Err(Violation::ProvenanceMismatch));
    let bogus = Provenance { alloc_id: p.alloc_id, bor_tag: p.bor_tag + 100 };
    assert_eq!(ctx.on_read(A, 8, bogus), Err(Violation::ProvenanceMismatch));
}

#[test]
fn alloc_dealloc_repeat_fails() {
    let mut ctx = Context::new();
    let p = ctx.on_alloc(A, 16).unwrap();
    assert_eq!(ctx.on_dealloc(A, p), Ok(()));
    // The metadata is gone; a second free must fail, not tear down
    // anything twice.
    assert_eq!(ctx.on_dealloc(A, p), Err(Violation::UseAfterFree));
}

#[test]
fn use_after_free_is_reported() {
    let mut ctx = Context::new();
    let p = ctx.on_alloc(A, 16).unwrap();
    let t1 = match ctx.on_retag(A, 16, p, RetagKind::Default, PlaceKind::Default, Mutability::Mutable)
    {
        Ok(q) => q,
        Err(e) => panic!("retag failed: {:?}", e),
    };
    assert_eq!(ctx.on_dealloc(A, p), Ok(()));
    assert_eq!(ctx.on_read(A, 8, p), Err(Violation::UseAfterFree));
    assert_eq!(ctx.on_write(A, 8, t1), Err(Violation::UseAfterFree));
    assert_eq!(ctx.expose_tag(A, p), Err(Violation::UseAfterFree));
}

#[test]
fn scenario_unique_then_shared_then_write() {
    // Allocate 16 bytes; retag the root into a unique tag T1; a write
    // through T1 succeeds and T1 stays usable; a shared tag T2 reads;
    // a later write through T1 disables T2 over the overlap, so T2's
    // next read reports the decayed permission.
    let mut ctx = Context::new();
    let p = ctx.on_alloc(A, 16).unwrap();
    let t1 = ctx
        .on_retag(A, 16, p, RetagKind::Default, PlaceKind::Default, Mutability::Mutable)
        .unwrap();
    assert_eq!(ctx.on_write(A, 8, t1), Ok(()));
    assert_eq!(ctx.on_write(A, 8, t1), Ok(()));
    let t2 = ctx
        .on_retag(A, 16, t1, RetagKind::Default, PlaceKind::Freeze, Mutability::Immutable)
        .unwrap();
    assert_eq!(ctx.on_read(A, 8, t2), Ok(()));
    assert_eq!(ctx.on_write(A, 8, t1), Ok(()));
    assert_eq!(
        ctx.on_read(A, 8, t2),
        Err(Violation::ChildAccessAfterParentDisabled)
    );
    // The untouched half of the shared borrow still reads.
    assert_eq!(ctx.on_read(A + 8, 8, t2), Ok(()));
}

#[test]
fn protector_blocks_foreign_write_until_exit() {
    let mut ctx = Context::new();
    let p = ctx.on_alloc(A, 16).unwrap();
    ctx.on_func_entry();
    let t = ctx
        .on_retag(A, 16, p, RetagKind::FnEntry, PlaceKind::Default, Mutability::Mutable)
        .unwrap();
    // While the frame is open, a write that would disable the
    // protected borrow is a protector violation, never silent success.
    assert_eq!(ctx.on_write(A, 16, p), Err(Violation::ProtectorViolation));
    // The rejected write changed nothing: the protected tag still works.
    assert_eq!(ctx.on_read(A, 16, t), Ok(()));
    ctx.on_func_exit();
    assert_eq!(ctx.on_write(A, 16, p), Ok(()));
    assert_eq!(
        ctx.on_read(A, 16, t),
        Err(Violation::ChildAccessAfterParentDisabled)
    );
}

#[test]
fn protected_dealloc_is_rejected() {
    let mut ctx = Context::new();
    let p = ctx.on_alloc(A, 16).unwrap();
    ctx.on_func_entry();
    let _t = ctx
        .on_retag(A, 16, p, RetagKind::FnEntry, PlaceKind::Default, Mutability::Mutable)
        .unwrap();
    assert_eq!(ctx.on_dealloc(A, p), Err(Violation::ProtectorViolation));
    ctx.on_func_exit();
    assert_eq!(ctx.on_dealloc(A, p), Ok(()));
}

#[test]
fn frozen_tag_rejects_writes_through_runtime() {
    let mut ctx = Context::new();
    let p = ctx.on_alloc(A, 16).unwrap();
    let shared = ctx
        .on_retag(A, 16, p, RetagKind::Default, PlaceKind::Freeze, Mutability::Immutable)
        .unwrap();
    assert_eq!(ctx.on_read(A, 16, shared), Ok(()));
    assert_eq!(
        ctx.on_write(A, 16, shared),
        Err(Violation::ForeignWriteWhileFrozen)
    );
}

#[test]
fn retag_of_dead_allocation_is_checked() {
    let mut ctx = Context::new();
    let p = ctx.on_alloc(A, 16).unwrap();
    ctx.on_dealloc(A, p).unwrap();
    assert_eq!(
        ctx.on_retag(A, 16, p, RetagKind::Default, PlaceKind::Default, Mutability::Mutable),
        Err(RuntimeError::Checked(Violation::UseAfterFree))
    );
}

#[test]
fn shadow_observer_sees_retagged_provenance() {
    let mut ctx = Context::new();
    let p = ctx.on_alloc(A, 16).unwrap();
    // Before any retag nothing was recorded.
    assert_eq!(ctx.provenance_at(A), Provenance { alloc_id: 0, bor_tag: 0 });
    let t = ctx
        .on_retag(A, 16, p, RetagKind::Default, PlaceKind::Default, Mutability::Mutable)
        .unwrap();
    assert_eq!(ctx.provenance_at(A), t);
    assert_eq!(ctx.provenance_at(A + 15), t);
    // The next word after the allocation is untouched.
    assert_eq!(ctx.provenance_at(A + 16), Provenance { alloc_id: 0, bor_tag: 0 });
}

#[test]
fn expose_tag_round_trip() {
    let mut ctx = Context::new();
    let p = ctx.on_alloc(A, 16).unwrap();
    // Before the first borrow there is no node, only the root right.
    assert_eq!(ctx.expose_tag(A, p), Ok(()));
    let t = ctx
        .on_retag(A, 16, p, RetagKind::Raw, PlaceKind::Default, Mutability::Mutable)
        .unwrap();
    assert_eq!(ctx.expose_tag(A, t), Ok(()));
    let bogus = Provenance { alloc_id: p.alloc_id, bor_tag: 999 };
    assert_eq!(ctx.expose_tag(A, bogus), Err(Violation::ProvenanceMismatch));
}
