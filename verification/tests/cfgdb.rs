use pixel_carrierconfig_toolbox::cfgdb::{check_confman_hex, normalize_refiner, parse_parent_id, version_text, VersionCell};
use pixel_carrierconfig_toolbox::error::{Error, ProjectError};

#[test]
fn refiners_without_a_filter_are_none() {
    assert_eq!(normalize_refiner(None), None);
    assert_eq!(normalize_refiner(Some(String::new())), None);
    assert_eq!(normalize_refiner(Some("%".to_string())), None);
    assert_eq!(normalize_refiner(Some("310%".to_string())), Some("310%".to_string()));
}

#[test]
fn parent_id_is_parsed_strictly() {
    assert_eq!(parent_id_ok(None), None);
    assert_eq!(parent_id_ok(Some("")), None);
    assert_eq!(parent_id_ok(Some("1839")), Some(1839));
    assert_eq!(parent_id_ok(Some("-2")), Some(-2));
    match parse_parent_id(7, Some("x1".to_string())) {
        Err(Error::Project(ProjectError::NonNumericParentId(c, t))) => {
            assert_eq!(c, 7);
            assert_eq!(t, "x1");
        }
        _ => panic!("expected NonNumericParentId"),
    }
}

fn parent_id_ok(raw: Option<&str>) -> Option<i64> {
    parse_parent_id(1, raw.map(|s| s.to_string())).unwrap()
}

#[test]
fn version_cells_become_text() {
    assert_eq!(version_text(VersionCell::Integer(20240101)), "20240101");
    assert_eq!(version_text(VersionCell::Integer(-1)), "-1");
    assert_eq!(version_text(VersionCell::Text("cfgdb-x".to_string())), "cfgdb-x");
    assert_eq!(version_text(VersionCell::Other), "");
}

#[test]
fn confman_must_be_40_lowercase_hex() {
    assert!(check_confman_hex(&"0a".repeat(20)).is_ok());
    assert!(check_confman_hex(&"0A".repeat(20)).is_err());
    assert!(check_confman_hex("abc").is_err());
    match check_confman_hex("x; DROP TABLE") {
        Err(Error::Project(ProjectError::BadConfman(t))) => assert_eq!(t, "x; DROP TABLE"),
        _ => panic!("expected BadConfman"),
    }
}
