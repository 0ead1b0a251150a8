//! Shadow-memory behaviour: defaults, round trips, and the geometry
//! that decides which addresses share a slot.

use bsan_rt::geometry::l1_index;
use bsan_rt::geometry::l2_index;
use bsan_rt::shadow::ShadowHeap;
use bsan_rt::util::Size;

#[test]
fn create_and_drop() {
    let _ = ShadowHeap::<u8>::default();
}

#[test]
fn untouched_reads_default() {
    let h: ShadowHeap<u8> = Default::default();
    assert_eq!(h.load(0), 0);
    assert_eq!(h.load(0x1000), 0);
    assert_eq!(h.load(0xFFFF_FFFF_FFFF), 0);
}

#[test]
fn store_then_load_round_trip() {
    let mut h: ShadowHeap<u8> = Default::default();
    h.store(0x1000, 7);
    assert_eq!(h.load(0x1000), 7);
    // Every address of the same tracked word resolves to the same slot.
    assert_eq!(h.load(0x1001), 7);
    assert_eq!(h.load(0x1007), 7);
    // The next word is untouched.
    assert_eq!(h.load(0x1008), 0);
    // Overwrite wins.
    h.store(0x1003, 9);
    assert_eq!(h.load(0x1000), 9);
}

#[test]
fn different_chunks_never_alias() {
    let mut h: ShadowHeap<u8> = Default::default();
    // 0xFFF8 and 0x10000 sit in different chunks.
    assert_ne!(l1_index(0xFFF8), l1_index(0x10000));
    h.store(0xFFF8, 1);
    h.store(0x10000, 2);
    assert_eq!(h.load(0xFFF8), 1);
    assert_eq!(h.load(0x10000), 2);
}

#[test]
fn same_word_same_slot_indices() {
    assert_eq!(l1_index(0x1000), l1_index(0x1007));
    assert_eq!(l2_index(0x1000), l2_index(0x1007));
    // Adjacent words of one chunk share the chunk, not the slot.
    assert_eq!(l1_index(0x1000), l1_index(0x1008));
    assert_ne!(l2_index(0x1000), l2_index(0x1008));
    // Exact values: a chunk spans 64 KiB, a slot one 8-byte word.
    assert_eq!(l1_index(0x2_0000), 2);
    assert_eq!(l2_index(0x2_0010), 2);
}

#[test]
fn size_from_bytes() {
    let s = Size::from_bytes(4096);
    assert_eq!(s.bytes, 4096);
    assert_eq!(Size::from_bytes(0).bytes, 0);
}
