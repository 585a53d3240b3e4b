use pixel_carrierconfig_toolbox::nvtable::{crc32_id, nv_names, NvTable};

#[test]
fn crc32_matches_known_ids() {
    assert_eq!(crc32_id("TCS_GV_OPT_CARRIER_TYPE"), 922_505_959);
    assert_eq!(crc32_id("gTCS_FCI_info"), 287_538_830);
    assert_eq!(crc32_id("NV.ITEM.GUARD"), 3_854_640_803);
}

#[test]
fn bundled_resolves_names() {
    let t = NvTable::bundled();
    assert_eq!(t.name(922_505_959), Some("TCS_GV_OPT_CARRIER_TYPE"));
    assert_eq!(t.id("TCS_GV_OPT_CARRIER_TYPE"), 922_505_959);
    assert_eq!(t.name(1), None);
}

#[test]
fn nv_names_are_crc32_consistent() {
    for (id, name) in nv_names() {
        assert_eq!(crc32_id(name), id, "id/name mismatch for {name:?}");
    }
}

#[test]
fn bundled_table_label() {
    assert_eq!(NvTable::bundled().label(), "g5400_nv");
}
