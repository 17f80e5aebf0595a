use basalt::rid::RID;

#[test]
fn test_rid_new() {
    let rid = RID::new(10, 20);
    assert_eq!(rid.page_id, 10);
    assert_eq!(rid.slot_id, 20);
}

#[test]
fn test_rid_to_u64() {
    let rid = RID::new(0x12345678, 0x9ABCDEF0);
    let packed = RID::to_u64(rid);
    assert_eq!(packed, 0x123456789ABCDEF0);
}

#[test]
fn test_rid_from_u64() {
    let packed: u64 = 0x123456789ABCDEF0;
    let rid = RID::from_u64(packed);
    assert_eq!(rid.page_id, 0x12345678);
    assert_eq!(rid.slot_id, 0x9ABCDEF0);
}

#[test]
fn test_rid_to_and_from_u64() {
    let rid = RID::new(42, 84);
    let packed = RID::to_u64(rid);
    let unpacked = RID::from_u64(packed);

    assert_eq!(unpacked.page_id, 42);
    assert_eq!(unpacked.slot_id, 84);
    assert_eq!(rid, unpacked);
}

#[test]
fn rid_packing_extremes() {
    let rid = RID::new(u32::MAX, u32::MAX);
    assert_eq!(RID::to_u64(rid), u64::MAX);
    assert_eq!(RID::from_u64(u64::MAX), rid);
    let zero = RID::new(0, 0);
    assert_eq!(RID::to_u64(zero), 0);
    assert_eq!(RID::from_u64(0), zero);
    // page id only in the upper half, slot id only in the lower half
    assert_eq!(RID::to_u64(RID::new(1, 0)), 0x1_0000_0000);
    assert_eq!(RID::to_u64(RID::new(0, 1)), 1);
}

#[test]
fn rid_unpack_then_pack_is_identity() {
    for v in [0u64, 1, 0xFFFF_FFFF, 0x1_0000_0000, 0xDEAD_BEEF_CAFE_F00D, u64::MAX] {
        assert_eq!(RID::to_u64(RID::from_u64(v)), v);
    }
}
