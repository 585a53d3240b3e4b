use indexmap::IndexMap;
use pixel_carrierconfig_toolbox::cfgdb::{Carrier, Cfgdb, MatchRule};
use pixel_carrierconfig_toolbox::clz4::compress;
use pixel_carrierconfig_toolbox::confseq::{content_hash, ConfSeq, NvItem};
use pixel_carrierconfig_toolbox::error::{Error, ProjectError};
use pixel_carrierconfig_toolbox::nvtable::NvTable;
use pixel_carrierconfig_toolbox::project::compile::{
    changed_confmans, confman_sub_remap, item_map, plan_compile, RemapEntry,
};
use pixel_carrierconfig_toolbox::project::decompile::{carrier_slug, classify_confseq, plan_decompile, ModuleChoice};
use pixel_carrierconfig_toolbox::project::model::{CarrierFile, Lock, ModuleToml};
use pixel_carrierconfig_toolbox::project::{is_unknown_key, item_key, key_to_id};

const CONFMAN: &str = "0123456789abcdef0123456789abcdef01234567";

fn confseq(name: &str, items: Vec<(u32, Vec<Vec<i64>>)>) -> Vec<u8> {
    ConfSeq {
        revision: "v1.0".to_string(),
        name: name.to_string(),
        items: items.into_iter().map(|(id, vals)| NvItem { id, vals }).collect(),
    }
    .encode()
}

fn carrier(id: i64, slug: Option<&str>, confman: &str) -> Carrier {
    Carrier {
        carrier_id: id,
        slug: slug.map(|s| s.to_string()),
        name: None,
        parent_id: None,
        confman: confman.to_string(),
        matching: vec![MatchRule {
            mccmnc: "311480".to_string(),
            imsi_prefix_xpattern: None,
            spn: Some("Verizon".to_string()),
            gid1: None,
            gid2: None,
            iccid_prefix: None,
        }],
    }
}

struct Source {
    db: Cfgdb,
    hashes: Vec<Vec<String>>,
    files: Vec<(String, Vec<u8>)>,
    names: Vec<String>,
    plain: String,
    packed: String,
    blob: String,
    repeated: String,
    orphan: String,
}

fn source() -> Source {
    let plain_b = confseq("core.sim1", vec![(922_505_959, vec![vec![4097]]), (7, vec![vec![1, 2], vec![]])]);
    let packed_b = compress(&confseq("ims.sim1", vec![(287_538_830, vec![vec![85, 83]])]));
    let blob_b = b"-----BEGIN CERTIFICATE-----".to_vec();
    let repeated_b = confseq("dup.sim1", vec![(5, vec![vec![1]]), (5, vec![vec![2]])]);
    let orphan_b = confseq("orphan", vec![]);
    let (plain, packed, blob, repeated, orphan) = (
        content_hash(&plain_b),
        content_hash(&packed_b),
        content_hash(&blob_b),
        content_hash(&repeated_b),
        content_hash(&orphan_b),
    );
    let files = vec![
        (plain.clone(), plain_b),
        (packed.clone(), packed_b),
        (blob.clone(), blob_b),
        (repeated.clone(), repeated_b),
        (orphan.clone(), orphan_b),
    ];
    let names = files.iter().map(|f| f.0.clone()).collect();
    let db = Cfgdb {
        carriers: vec![carrier(1839, Some("us_vzw"), CONFMAN), carrier(7, None, &"f".repeat(40))],
        versions: vec![("confpack".to_string(), "cfgdb-1".to_string())],
    };
    let hashes = vec![
        vec![plain.clone(), packed.clone(), blob.clone(), plain.clone()],
        vec![repeated.clone()],
    ];
    Source { db, hashes, files, names, plain, packed, blob, repeated, orphan }
}

fn stored_of(src: &Source, originals: &[String]) -> Vec<(String, Vec<u8>)> {
    originals
        .iter()
        .map(|h| (h.clone(), src.files.iter().find(|f| &f.0 == h).unwrap().1.clone()))
        .collect()
}

#[test]
fn key_roundtrip() {
    let t = NvTable::bundled();
    assert_eq!(item_key(&t, 922_505_959), "TCS_GV_OPT_CARRIER_TYPE");
    assert_eq!(key_to_id("TCS_GV_OPT_CARRIER_TYPE"), 922_505_959);
    assert_eq!(item_key(&t, 1), "unknown_1");
    assert_eq!(key_to_id("unknown_1"), 1);
}

#[test]
fn key_to_id_falls_back_to_crc32() {
    assert_eq!(key_to_id("unknown_x"), pixel_carrierconfig_toolbox::nvtable::crc32_id("unknown_x"));
    assert_eq!(key_to_id("unknown_+42"), 42);
    assert!(is_unknown_key("unknown_9"));
    assert!(!is_unknown_key("unknow_9"));
}

#[test]
fn carrier_slug_defaults_to_id() {
    assert_eq!(carrier_slug(&carrier(1839, Some("us_vzw"), CONFMAN)), "us_vzw");
    assert_eq!(carrier_slug(&carrier(-3, None, CONFMAN)), "id_-3");
}

#[test]
fn classify_tells_modules_from_blobs() {
    let nv = NvTable::bundled();
    let src = source();
    match classify_confseq(&src.files[0].1, &nv) {
        ModuleChoice::Editable(name, m) => {
            assert_eq!(name, "core.sim1");
            assert!(!m.compressed);
            let keys: Vec<&String> = m.items.keys().collect();
            assert_eq!(keys, vec!["TCS_GV_OPT_CARRIER_TYPE", "unknown_7"]);
            assert_eq!(m.items["unknown_7"], vec![vec![1, 2], vec![]]);
        }
        ModuleChoice::Blob => panic!("expected an editable module"),
    }
    match classify_confseq(&src.files[1].1, &nv) {
        ModuleChoice::Editable(name, m) => {
            assert_eq!(name, "ims.sim1");
            assert!(m.compressed);
        }
        ModuleChoice::Blob => panic!("expected an editable module"),
    }
    assert!(matches!(classify_confseq(&src.files[2].1, &nv), ModuleChoice::Blob));
    // a repeated NV id cannot be keyed by name: kept as a blob
    assert!(matches!(classify_confseq(&src.files[3].1, &nv), ModuleChoice::Blob));
}

#[test]
fn decompile_plan_splits_modules_locks_and_originals() {
    let nv = NvTable::bundled();
    let src = source();
    let plan = plan_decompile(&src.db, &src.hashes, &src.files, &src.names, &nv);
    assert_eq!(plan.carriers.len(), 2);
    let (slug, cf) = &plan.carriers[0];
    assert_eq!(slug, "us_vzw");
    assert_eq!(cf.carrier_id, 1839);
    assert_eq!(cf.matching.len(), 1);
    assert_eq!(cf.matching[0].spn.as_deref(), Some("Verizon"));
    let modules: Vec<&str> = cf.confseq.iter().map(|m| m.0.as_str()).collect();
    assert_eq!(modules, vec!["core.sim1", "ims.sim1"]);
    assert_eq!(plan.carriers[1].0, "id_7");
    assert!(plan.carriers[1].1.confseq.is_empty());
    let locks: Vec<(String, String, String)> =
        plan.locks.iter().map(|l| (l.carrier.clone(), l.module.clone(), l.orig_hash.clone())).collect();
    assert_eq!(
        locks,
        vec![
            ("us_vzw".to_string(), "core.sim1".to_string(), src.plain.clone()),
            ("us_vzw".to_string(), "ims.sim1".to_string(), src.packed.clone()),
            ("us_vzw".to_string(), format!("blob:{}", src.blob), src.blob.clone()),
            ("id_7".to_string(), format!("blob:{}", src.repeated), src.repeated.clone()),
        ]
    );
    assert_eq!(plan.originals, vec![src.packed.clone(), src.blob.clone(), src.repeated.clone(), src.orphan.clone()]);
}

#[test]
fn unedited_project_compiles_to_its_source() {
    let nv = NvTable::bundled();
    let src = source();
    let plan = plan_decompile(&src.db, &src.hashes, &src.files, &src.names, &nv);
    let stored = stored_of(&src, &plan.originals);
    let out = plan_compile(&src.db.carriers, &plan.carriers, &plan.locks, &stored).unwrap();
    assert!(out.remap.is_empty());
    assert_eq!(out.writes.len(), 1);
    for (h, b) in &out.writes {
        let orig = src.files.iter().find(|f| &f.0 == h).unwrap();
        assert_eq!(&orig.1, b);
    }
    assert!(changed_confmans(&out.remap).is_empty());
}

fn edit(cf: &mut CarrierFile, module: &str, key: &str, vals: Vec<Vec<i64>>) {
    let m = &mut cf.confseq.iter_mut().find(|m| m.0 == module).unwrap().1;
    m.items.insert(key.to_string(), vals);
}

#[test]
fn edited_module_is_reencoded_and_remapped() {
    let nv = NvTable::bundled();
    let src = source();
    let mut plan = plan_decompile(&src.db, &src.hashes, &src.files, &src.names, &nv);
    edit(&mut plan.carriers[0].1, "core.sim1", "TCS_GV_OPT_CARRIER_TYPE", vec![vec![1]]);
    let stored = stored_of(&src, &plan.originals);
    let out = plan_compile(&src.db.carriers, &plan.carriers, &plan.locks, &stored).unwrap();
    let expected = confseq("core.sim1", vec![(922_505_959, vec![vec![1]]), (7, vec![vec![1, 2], vec![]])]);
    assert_eq!(out.writes, vec![(content_hash(&expected), expected.clone())]);
    assert_eq!(out.remap.len(), 1);
    assert_eq!(out.remap[0].confman, CONFMAN);
    assert_eq!(out.remap[0].old, src.plain);
    assert_eq!(out.remap[0].new, content_hash(&expected));
    assert_eq!(changed_confmans(&out.remap), vec![CONFMAN.to_string()]);
    assert_eq!(
        confman_sub_remap(&out.remap, &CONFMAN.to_string()),
        vec![(src.plain.clone(), content_hash(&expected))]
    );
}

#[test]
fn edited_compressed_module_is_rewrapped() {
    let nv = NvTable::bundled();
    let src = source();
    let mut plan = plan_decompile(&src.db, &src.hashes, &src.files, &src.names, &nv);
    edit(&mut plan.carriers[0].1, "ims.sim1", "gTCS_FCI_info", vec![vec![9]]);
    let stored = stored_of(&src, &plan.originals);
    let out = plan_compile(&src.db.carriers, &plan.carriers, &plan.locks, &stored).unwrap();
    assert_eq!(out.writes.len(), 2);
    let (h, b) = &out.writes[1];
    assert_eq!(&b[0..4], b"CLZ4");
    assert_eq!(*h, content_hash(b));
    let back = ConfSeq::decode(b).unwrap();
    assert_eq!(back.items[0].vals, vec![vec![9]]);
    assert_eq!(out.remap[0].old, src.packed);
}

#[test]
fn module_without_a_lock_is_refused() {
    let nv = NvTable::bundled();
    let src = source();
    let plan = plan_decompile(&src.db, &src.hashes, &src.files, &src.names, &nv);
    let locks: Vec<Lock> = plan
        .locks
        .iter()
        .filter(|l| l.module != "core.sim1")
        .map(|l| Lock { carrier: l.carrier.clone(), module: l.module.clone(), orig_hash: l.orig_hash.clone() })
        .collect();
    let stored = stored_of(&src, &plan.originals);
    match plan_compile(&src.db.carriers, &plan.carriers, &locks, &stored) {
        Err(Error::Project(ProjectError::NoLock(c, m))) => {
            assert_eq!(c, "us_vzw");
            assert_eq!(m, "core.sim1");
        }
        _ => panic!("expected NoLock"),
    }
}

fn single_module_file(id: i64, items: Vec<(&str, Vec<Vec<i64>>)>) -> CarrierFile {
    let mut map = IndexMap::new();
    for (k, v) in items {
        map.insert(k.to_string(), v);
    }
    CarrierFile {
        carrier_id: id,
        parent_id: None,
        matching: vec![],
        confseq: vec![("core.sim1".to_string(), ModuleToml { revision: "v1.0".to_string(), compressed: false, items: map })],
    }
}

#[test]
fn divergent_edits_of_a_shared_confman_are_refused() {
    let orig = confseq("core.sim1", vec![(922_505_959, vec![vec![4097]])]);
    let h = content_hash(&orig);
    let carriers = vec![carrier(1, Some("a"), CONFMAN), carrier(2, Some("b"), CONFMAN)];
    let files = vec![
        ("a".to_string(), single_module_file(1, vec![("TCS_GV_OPT_CARRIER_TYPE", vec![vec![1]])])),
        ("b".to_string(), single_module_file(2, vec![("TCS_GV_OPT_CARRIER_TYPE", vec![vec![2]])])),
    ];
    let locks = vec![
        Lock { carrier: "a".to_string(), module: "core.sim1".to_string(), orig_hash: h.clone() },
        Lock { carrier: "b".to_string(), module: "core.sim1".to_string(), orig_hash: h.clone() },
    ];
    match plan_compile(&carriers, &files, &locks, &[]) {
        Err(Error::Project(ProjectError::DivergentEdit(c, o))) => {
            assert_eq!(c, CONFMAN);
            assert_eq!(o, h);
        }
        _ => panic!("expected DivergentEdit"),
    }
    // the same edit on both carriers is one remap
    let same = vec![
        ("a".to_string(), single_module_file(1, vec![("TCS_GV_OPT_CARRIER_TYPE", vec![vec![1]])])),
        ("b".to_string(), single_module_file(2, vec![("TCS_GV_OPT_CARRIER_TYPE", vec![vec![1]])])),
    ];
    let out = plan_compile(&carriers, &same, &locks, &[]).unwrap();
    assert_eq!(out.remap.len(), 1);
}

#[test]
fn changed_confmans_are_sorted_and_unique() {
    let e = |c: &str, o: &str, n: &str| RemapEntry { confman: c.to_string(), old: o.to_string(), new: n.to_string() };
    let remap = vec![e("b", "1", "2"), e("a", "3", "4"), e("b", "5", "6"), e("a", "1", "9")];
    assert_eq!(changed_confmans(&remap), vec!["a".to_string(), "b".to_string()]);
    assert_eq!(
        confman_sub_remap(&remap, &"b".to_string()),
        vec![("1".to_string(), "2".to_string()), ("5".to_string(), "6".to_string())]
    );
    assert_eq!(
        confman_sub_remap(&remap, &"a".to_string()),
        vec![("1".to_string(), "9".to_string()), ("3".to_string(), "4".to_string())]
    );
}

#[test]
fn compile_writes_are_content_addressed_and_remaps_stay_in_the_edited_confman() {
    let nv = NvTable::bundled();
    let src = source();
    let mut plan = plan_decompile(&src.db, &src.hashes, &src.files, &src.names, &nv);
    edit(&mut plan.carriers[0].1, "core.sim1", "unknown_7", vec![vec![3]]);
    edit(&mut plan.carriers[0].1, "ims.sim1", "gTCS_FCI_info", vec![vec![4]]);
    let stored = stored_of(&src, &plan.originals);
    let out = plan_compile(&src.db.carriers, &plan.carriers, &plan.locks, &stored).unwrap();
    for (h, b) in &out.writes {
        assert_eq!(*h, content_hash(b));
    }
    assert_eq!(out.remap.len(), 2);
    for r in &out.remap {
        assert_eq!(r.confman, CONFMAN);
        assert!(plan.locks.iter().any(|l| l.carrier == "us_vzw" && l.orig_hash == r.old));
        assert!(out.writes.iter().any(|w| w.0 == r.new));
    }
    assert_eq!(changed_confmans(&out.remap), vec![CONFMAN.to_string()]);
}

#[test]
fn an_edit_decompiles_back_into_the_edited_module() {
    let nv = NvTable::bundled();
    let src = source();
    let mut plan = plan_decompile(&src.db, &src.hashes, &src.files, &src.names, &nv);
    edit(&mut plan.carriers[0].1, "core.sim1", "TCS_GV_OPT_CARRIER_TYPE", vec![vec![4097, 123_456]]);
    let stored = stored_of(&src, &plan.originals);
    let out = plan_compile(&src.db.carriers, &plan.carriers, &plan.locks, &stored).unwrap();
    let (_, bytes) = &out.writes[0];
    match classify_confseq(bytes, &nv) {
        ModuleChoice::Editable(name, m) => {
            assert_eq!(name, "core.sim1");
            assert!(!m.compressed);
            let items: Vec<(String, Vec<Vec<i64>>)> = m.items.into_iter().collect();
            assert_eq!(
                items,
                vec![
                    ("TCS_GV_OPT_CARRIER_TYPE".to_string(), vec![vec![4097, 123_456]]),
                    ("unknown_7".to_string(), vec![vec![1, 2], vec![]]),
                ]
            );
        }
        ModuleChoice::Blob => panic!("expected an editable module"),
    }
}

#[test]
fn item_map_is_sorted_by_id_with_the_last_groups() {
    let items = vec![
        NvItem { id: 9, vals: vec![vec![1]] },
        NvItem { id: 2, vals: vec![] },
        NvItem { id: 9, vals: vec![vec![2], vec![]] },
    ];
    assert_eq!(item_map(&items), vec![(2, vec![]), (9, vec![vec![2], vec![]])]);
}
