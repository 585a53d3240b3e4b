use pixel_carrierconfig_toolbox::error::{Error, ProjectError};
use pixel_carrierconfig_toolbox::magisk::{
    build_module, dest_prefix, module_entries, module_entry_path, module_prop, sort_files,
    ZipMethod, DEFAULT_NAME, UPDATER_SCRIPT, UPDATE_BINARY,
};
use std::collections::BTreeMap;
use std::io::{Cursor, Read};
use zip::ZipArchive;

fn file(path: &[&str], data: &[u8]) -> (Vec<String>, Vec<u8>) {
    (path.iter().map(|s| s.to_string()).collect(), data.to_vec())
}

fn entry_names(zip: &[u8]) -> Vec<String> {
    let mut archive = ZipArchive::new(Cursor::new(zip.to_vec())).unwrap();
    (0..archive.len()).map(|i| archive.by_index(i).unwrap().name().to_string()).collect()
}

fn entries(zip: &[u8]) -> BTreeMap<String, Vec<u8>> {
    let mut archive = ZipArchive::new(Cursor::new(zip.to_vec())).unwrap();
    let mut out = BTreeMap::new();
    for i in 0..archive.len() {
        let mut f = archive.by_index(i).unwrap();
        let name = f.name().to_string();
        let mut buf = Vec::new();
        f.read_to_end(&mut buf).unwrap();
        out.insert(name, buf);
    }
    out
}

#[test]
fn dest_prefix_strips_slashes() {
    assert_eq!(dest_prefix("/vendor/firmware/carrierconfig").unwrap(), "vendor/firmware/carrierconfig");
    assert_eq!(dest_prefix("/system/etc/foo/").unwrap(), "system/etc/foo");
}

#[test]
fn non_absolute_dest_prefix_errors() {
    assert!(dest_prefix("vendor/firmware/carrierconfig").is_err());
}

#[test]
fn root_dest_prefix_errors() {
    assert!(dest_prefix("/").is_err());
}

#[test]
fn dest_prefix_error_variants() {
    match dest_prefix("relative") {
        Err(Error::Project(ProjectError::DestNotAbsolute(t))) => assert_eq!(t, "relative"),
        _ => panic!("expected DestNotAbsolute"),
    }
    assert!(matches!(dest_prefix("///"), Err(Error::Project(ProjectError::DestIsRoot))));
    assert!(matches!(dest_prefix(""), Err(Error::Project(ProjectError::DestNotAbsolute(_)))));
}

#[test]
fn update_binary_is_well_formed() {
    assert!(UPDATE_BINARY.starts_with("#!"));
    assert!(UPDATE_BINARY.contains("util_functions.sh"));
    assert!(UPDATE_BINARY.contains("install_module"));
}

#[test]
fn module_entry_path_joins_components() {
    let rel = vec!["confseqs".to_string(), "abcd".to_string()];
    assert_eq!(module_entry_path("vendor/firmware/carrierconfig", &rel), "system/vendor/firmware/carrierconfig/confseqs/abcd");
    assert_eq!(module_entry_path("p", &["x".to_string()]), "system/p/x");
}

#[test]
fn module_prop_text() {
    assert_eq!(
        module_prop("/vendor/firmware/carrierconfig", "My Mod", 2),
        "id=pixel_carrierconfig_override\nname=My Mod\nversion=v1.0\nversionCode=1\nauthor=pixel-carrierconfig-toolbox\ndescription=Overlays the carrierconfig (cfgdb) tree onto /vendor/firmware/carrierconfig (2 files).\n"
    );
}

#[test]
fn sort_files_orders_by_components() {
    let files = vec![file(&["z"], b"1"), file(&["confseqs", "b"], b"2"), file(&["cfg.db"], b"3"), file(&["confseqs", "a"], b"4")];
    let sorted = sort_files(files);
    let paths: Vec<Vec<String>> = sorted.into_iter().map(|f| f.0).collect();
    let mut expected: Vec<Vec<String>> = paths.clone();
    expected.sort();
    assert_eq!(paths, expected);
    assert_eq!(paths[0], vec!["cfg.db".to_string()]);
}

#[test]
fn module_entries_lists_prop_scripts_then_files() {
    let files = vec![file(&["confseqs", "abcd"], b"cs"), file(&["cfg.db"], b"db")];
    let es = module_entries(files, "/vendor/firmware/carrierconfig", None).unwrap();
    let names: Vec<&str> = es.iter().map(|e| e.name.as_str()).collect();
    assert_eq!(
        names,
        vec![
            "module.prop",
            "META-INF/com/google/android/update-binary",
            "META-INF/com/google/android/updater-script",
            "system/vendor/firmware/carrierconfig/cfg.db",
            "system/vendor/firmware/carrierconfig/confseqs/abcd",
        ]
    );
    let modes: Vec<u32> = es.iter().map(|e| e.mode).collect();
    assert_eq!(modes, vec![0o644, 0o755, 0o644, 0o644, 0o644]);
    assert!(es.iter().all(|e| matches!(e.method, ZipMethod::Stored)));
    assert_eq!(es[2].data, UPDATER_SCRIPT.as_bytes());
    assert_eq!(es[3].data, b"db");
    let prop = String::from_utf8(es[0].data.clone()).unwrap();
    assert!(prop.contains(&format!("name={DEFAULT_NAME}\n")));
    assert!(prop.contains("(2 files)"));
}

#[test]
fn module_overlays_nested_tree_under_dest() {
    let files = vec![file(&["cfg.db"], b"db"), file(&["confseqs", "abcd"], b"cs")];
    let zip = build_module(files, "/vendor/firmware/carrierconfig", None).unwrap();
    let names = entry_names(&zip);
    assert!(names.iter().any(|n| n == "module.prop"));
    assert!(names.iter().any(|n| n == "META-INF/com/google/android/update-binary"));
    assert!(names.iter().any(|n| n == "system/vendor/firmware/carrierconfig/cfg.db"));
    assert!(names.iter().any(|n| n == "system/vendor/firmware/carrierconfig/confseqs/abcd"));
}

#[test]
fn updater_script_is_magisk() {
    let zip = build_module(vec![file(&["x"], b"x")], "/vendor/firmware/carrierconfig", None).unwrap();
    let e = entries(&zip);
    assert_eq!(e.get("META-INF/com/google/android/updater-script").unwrap(), b"#MAGISK\n");
}

#[test]
fn module_prop_has_required_fields() {
    let zip = build_module(vec![file(&["x"], b"x")], "/vendor/firmware/carrierconfig", Some("My Mod")).unwrap();
    let e = entries(&zip);
    let prop = std::str::from_utf8(e.get("module.prop").unwrap()).unwrap();
    assert!(prop.contains("id=pixel_carrierconfig_override\n"));
    assert!(prop.contains("name=My Mod\n"));
    assert!(prop.contains("author=pixel-carrierconfig-toolbox\n"));
}

#[test]
fn dest_override_changes_prefix() {
    let zip = build_module(vec![file(&["x"], b"x")], "/system/etc/foo/", None).unwrap();
    assert!(entry_names(&zip).iter().any(|n| n == "system/system/etc/foo/x"));
}

#[test]
fn non_absolute_dest_errors() {
    assert!(build_module(vec![], "vendor/firmware/carrierconfig", None).is_err());
}

#[test]
fn root_dest_errors() {
    assert!(build_module(vec![], "/", None).is_err());
}

#[test]
fn module_files_keep_their_bytes() {
    let zip = build_module(vec![file(&["a", "b"], b"hello")], "/d", None).unwrap();
    assert_eq!(entries(&zip).get("system/d/a/b").unwrap(), b"hello");
}

#[test]
fn duplicate_entries_are_a_zip_error() {
    let r = build_module(vec![file(&["x"], b"1"), file(&["x"], b"2")], "/d", None);
    assert!(matches!(r, Err(Error::Project(ProjectError::Zip(_)))));
}

#[test]
fn archive_entries_come_in_order_stored_with_modes() {
    let files = vec![file(&["confseqs", "abcd"], b"cs"), file(&["cfg.db"], b"db")];
    let zip = build_module(files, "/d", Some("M")).unwrap();
    let mut archive = ZipArchive::new(Cursor::new(zip)).unwrap();
    let mut seen = Vec::new();
    for i in 0..archive.len() {
        let f = archive.by_index(i).unwrap();
        assert_eq!(f.compression(), zip::CompressionMethod::Stored);
        seen.push((f.name().to_string(), f.unix_mode().unwrap() & 0o777));
    }
    assert_eq!(
        seen,
        vec![
            ("module.prop".to_string(), 0o644),
            ("META-INF/com/google/android/update-binary".to_string(), 0o755),
            ("META-INF/com/google/android/updater-script".to_string(), 0o644),
            ("system/d/cfg.db".to_string(), 0o644),
            ("system/d/confseqs/abcd".to_string(), 0o644),
        ]
    );
}

#[test]
fn paths_joining_to_one_entry_name_are_a_zip_error() {
    let r = build_module(vec![file(&["a/b"], b"1"), file(&["a", "b"], b"2")], "/d", None);
    assert!(matches!(r, Err(Error::Project(ProjectError::Zip(_)))));
}
