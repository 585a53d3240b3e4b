use indexmap::IndexMap;
use pixel_carrierconfig_toolbox::error::{Error, ProjectError};
use pixel_carrierconfig_toolbox::project::model::{CarrierFile, Lock, ModuleToml};
use pixel_carrierconfig_toolbox::report::{
    check_confman_manifest, check_locks, count_unknown, render_inspect, self_test,
};

fn module(items: Vec<(&str, Vec<Vec<i64>>)>) -> ModuleToml {
    let mut map = IndexMap::new();
    for (k, v) in items {
        map.insert(k.to_string(), v);
    }
    ModuleToml { revision: "v1.0".to_string(), compressed: false, items: map }
}

fn carrier_file(parent: Option<i64>, modules: Vec<(&str, ModuleToml)>) -> CarrierFile {
    CarrierFile {
        carrier_id: 1839,
        parent_id: parent,
        matching: vec![],
        confseq: modules.into_iter().map(|(n, m)| (n.to_string(), m)).collect(),
    }
}

fn lock(c: &str, m: &str, h: &str) -> Lock {
    Lock { carrier: c.to_string(), module: m.to_string(), orig_hash: h.to_string() }
}

#[test]
fn self_test_passes() {
    self_test().unwrap();
}

#[test]
fn inspect_renders_brief_listing() {
    let cf = carrier_file(
        None,
        vec![(
            "core.sim1",
            module(vec![("TCS_GV_OPT_CARRIER_TYPE", vec![vec![4097]]), ("unknown_7", vec![vec![1, 2], vec![3], vec![]])]),
        )],
    );
    let text = render_inspect("x", &cf, &vec![], false);
    assert_eq!(
        text,
        "carrier x (id 1839)\n  [core.sim1]\n    TCS_GV_OPT_CARRIER_TYPE = [[4097]]\n    unknown_7 = [[1, 2], [3], []]\n"
    );
}

#[test]
fn inspect_renders_full_listing() {
    let cf = carrier_file(
        Some(-5),
        vec![
            ("a.sim1", module(vec![("unknown_7", vec![vec![-1]])])),
            ("b.sim1", module(vec![])),
        ],
    );
    let locks = vec![
        lock("x", "a.sim1", "first"),
        lock("y", "a.sim1", "other carrier"),
        lock("x", "a.sim1", "last"),
    ];
    let text = render_inspect("x", &cf, &locks, true);
    assert_eq!(
        text,
        "carrier x (id 1839) parent -5\n  [a.sim1]  (orig_hash last)\n    unknown_7 (id 7) = [[-1]]\n  [b.sim1]  (orig_hash unknown)\n"
    );
}

#[test]
fn check_dangling_lock_returns_err() {
    let locks = vec![lock("x", "core.sim1", &"deadbeef".repeat(5))];
    let result = check_locks(&locks, &vec![], &vec![]);
    match result {
        Err(Error::Project(ProjectError::DanglingLock(c, m, h))) => {
            assert_eq!(c, "x");
            assert_eq!(m, "core.sim1");
            assert_eq!(h, "deadbeef".repeat(5));
        }
        _ => panic!("expected Err for dangling lock, got Ok"),
    }
}

#[test]
fn locks_stored_or_reencodable_pass() {
    let locks = vec![lock("x", "core.sim1", "aa"), lock("x", "blob:bb", "bb")];
    let files = vec![("x".to_string(), Some(carrier_file(None, vec![("core.sim1", module(vec![]))])))];
    assert!(check_locks(&locks, &vec!["bb".to_string()], &files).is_ok());
    // an unreadable carrier file reproduces nothing
    let unreadable = vec![("x".to_string(), None)];
    assert!(check_locks(&locks, &vec!["bb".to_string()], &unreadable).is_err());
}

fn ref_entry(hash20: &[u8; 20]) -> Vec<u8> {
    let mut r = vec![0x12, 0x14];
    r.extend_from_slice(hash20);
    let mut out = vec![0x2a, r.len() as u8];
    out.extend_from_slice(&r);
    out
}

fn hex(h: &[u8; 20]) -> String {
    h.iter().map(|x| format!("{x:02x}")).collect()
}

#[test]
fn confman_table_matching_its_manifest_passes() {
    let (a, b) = ([0xaau8; 20], [0xbbu8; 20]);
    let mut m = Vec::new();
    for h in [a, b, a] {
        m.extend(ref_entry(&h));
    }
    let db = vec![hex(&b), hex(&a), hex(&a)];
    assert!(check_confman_manifest(&"c".to_string(), &db, &m).is_ok());
}

#[test]
fn confman_table_mismatch_reports_counts_and_examples() {
    let (a, b, c) = ([0xaau8; 20], [0xbbu8; 20], [0xccu8; 20]);
    let mut m = Vec::new();
    for h in [a, c] {
        m.extend(ref_entry(&h));
    }
    let db = vec![hex(&a), hex(&b), hex(&a)];
    match check_confman_manifest(&"cm".to_string(), &db, &m) {
        Err(Error::Project(ProjectError::ConfmanMismatch(cm, n_db, n_mf, db_only, mf_only))) => {
            assert_eq!(cm, "cm");
            assert_eq!((n_db, n_mf), (3, 2));
            assert_eq!(db_only, Some(hex(&b)));
            assert_eq!(mf_only, Some(hex(&c)));
        }
        _ => panic!("expected a mismatch"),
    }
    // same hashes, different counts
    let mut m2 = Vec::new();
    for h in [a, b] {
        m2.extend(ref_entry(&h));
    }
    match check_confman_manifest(&"cm".to_string(), &db, &m2) {
        Err(Error::Project(ProjectError::ConfmanMismatch(_, 3, 2, None, None))) => {}
        _ => panic!("expected a count mismatch"),
    }
}

#[test]
fn unknown_items_are_counted() {
    let files = vec![
        carrier_file(None, vec![("a", module(vec![("unknown_1", vec![]), ("TCS", vec![])])), ("b", module(vec![("unknown_2", vec![])]))]),
        carrier_file(None, vec![("c", module(vec![("unknown_x", vec![]), ("unknownx", vec![])]))]),
    ];
    assert_eq!(count_unknown(&files), 3);
}
