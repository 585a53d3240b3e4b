use pixel_carrierconfig_toolbox::error::{Error, ProjectError};
use pixel_carrierconfig_toolbox::manifest::{rewrite_ref_hashes, Manifest};
use std::collections::BTreeMap;

fn ref_entry(hash20: &[u8; 20]) -> Vec<u8> {
    let mut r = vec![0x12, 0x14];
    r.extend_from_slice(hash20);
    r.extend_from_slice(&[0x40, 0x04]);
    let mut out = vec![0x2a, r.len() as u8];
    out.extend_from_slice(&r);
    out
}

fn manifest_bytes(hashes: &[[u8; 20]]) -> Vec<u8> {
    let mut b = vec![0x0a, 0x04, b'v', b'0', b'.', b'1', 0x12, 0x01, b'x', 0x18, 0x05];
    for h in hashes {
        b.extend(ref_entry(h));
    }
    b
}

fn hex(h: &[u8; 20]) -> String {
    h.iter().map(|x| format!("{x:02x}")).collect()
}

fn pairs(m: BTreeMap<String, String>) -> Vec<(String, String)> {
    m.into_iter().collect()
}

#[test]
fn decode_reads_version_name_carrier_and_hashes() {
    let (aa, bb) = ([0xaau8; 20], [0xbbu8; 20]);
    let m = Manifest::decode(&manifest_bytes(&[aa, bb])).unwrap();
    assert_eq!(m.version, "v0.1");
    assert_eq!(m.name, "x");
    assert_eq!(m.carrier_id, 5);
    assert_eq!(m.refs.len(), 2);
    assert_eq!(m.refs[0].hash, hex(&aa));
    assert_eq!(m.refs[1].hash, hex(&bb));
}

#[test]
fn rewrite_swaps_only_the_targeted_hash_and_preserves_length() {
    let (aa, bb, cc) = ([0xaau8; 20], [0xbbu8; 20], [0xccu8; 20]);
    let bytes = manifest_bytes(&[aa, bb]);
    let mut remap = BTreeMap::new();
    remap.insert(hex(&aa), hex(&cc));
    let out = rewrite_ref_hashes(&bytes, &pairs(remap)).unwrap();
    assert_eq!(out.len(), bytes.len(), "length must be preserved");
    let m = Manifest::decode(&out).unwrap();
    assert_eq!(m.refs[0].hash, hex(&cc), "aa should be swapped to cc");
    assert_eq!(m.refs[1].hash, hex(&bb), "bb must be untouched");
    assert_eq!(m.carrier_id, 5, "carrier_id preserved");
}

#[test]
fn rewrite_replaces_all_duplicate_occurrences() {
    let (dup, new) = ([0x11u8; 20], [0x22u8; 20]);
    let bytes = manifest_bytes(&[dup, dup, dup, dup]);
    let mut remap = BTreeMap::new();
    remap.insert(hex(&dup), hex(&new));
    let m = Manifest::decode(&rewrite_ref_hashes(&bytes, &pairs(remap)).unwrap()).unwrap();
    assert_eq!(m.refs.len(), 4);
    assert!(m.refs.iter().all(|r| r.hash == hex(&new)), "all 4 swapped");
}

#[test]
fn rewrite_with_empty_remap_is_identity() {
    let bytes = manifest_bytes(&[[0x33u8; 20]]);
    assert_eq!(rewrite_ref_hashes(&bytes, &pairs(BTreeMap::new())).unwrap(), bytes);
}

#[test]
fn rewrite_of_an_absent_hash_changes_nothing() {
    let bytes = manifest_bytes(&[[0x44u8; 20]]);
    let remap = vec![(hex(&[0x55u8; 20]), hex(&[0x66u8; 20]))];
    assert_eq!(rewrite_ref_hashes(&bytes, &remap).unwrap(), bytes);
}

#[test]
fn rewrite_refuses_a_short_hash() {
    let bytes = manifest_bytes(&[[0x44u8; 20]]);
    let remap = vec![("abcd".to_string(), hex(&[0x66u8; 20]))];
    match rewrite_ref_hashes(&bytes, &remap) {
        Err(Error::Project(ProjectError::RefHashLength(t))) => assert_eq!(t, "abcd"),
        _ => panic!("expected RefHashLength"),
    }
}

#[test]
fn rewrite_refuses_a_non_hex_hash() {
    let bytes = manifest_bytes(&[[0x44u8; 20]]);
    let bad = "zz".repeat(20);
    let remap = vec![(hex(&[0x44u8; 20]), bad.clone())];
    match rewrite_ref_hashes(&bytes, &remap) {
        Err(Error::Project(ProjectError::RefHashNotHex(t))) => assert_eq!(t, bad),
        _ => panic!("expected RefHashNotHex"),
    }
}

#[test]
fn a_multibyte_character_in_a_hash_is_not_hex() {
    let odd = format!("a\u{e9}{}", "0".repeat(37));
    assert_eq!(odd.len(), 40);
    let bytes = manifest_bytes(&[[0x44u8; 20]]);
    let remap = vec![(odd.clone(), hex(&[0x66u8; 20]))];
    match rewrite_ref_hashes(&bytes, &remap) {
        Err(Error::Project(ProjectError::RefHashNotHex(t))) => assert_eq!(t, odd),
        _ => panic!("expected RefHashNotHex"),
    }
}

#[test]
fn a_signed_pair_is_not_hex() {
    let bytes = manifest_bytes(&[[0x44u8; 20]]);
    let signed = "+0".repeat(20);
    let remap = vec![(signed.clone(), hex(&[0x66u8; 20]))];
    match rewrite_ref_hashes(&bytes, &remap) {
        Err(Error::Project(ProjectError::RefHashNotHex(t))) => assert_eq!(t, signed),
        _ => panic!("expected RefHashNotHex"),
    }
}

#[test]
fn uppercase_hex_is_accepted() {
    let bytes = manifest_bytes(&[[0xabu8; 20]]);
    let remap = vec![("AB".repeat(20), hex(&[0xcdu8; 20]))];
    let out = rewrite_ref_hashes(&bytes, &remap).unwrap();
    assert_eq!(Manifest::decode(&out).unwrap().refs[0].hash, hex(&[0xcdu8; 20]));
}

#[test]
fn manifest_with_truncated_field_is_an_error() {
    assert!(Manifest::decode(&[0x0a, 0x09, b'v']).is_err());
}

#[test]
fn rewritten_manifest_reads_back_with_only_the_old_ref_swapped() {
    let (aa, bb) = ([0xaau8; 20], [0xbbu8; 20]);
    let raw = manifest_bytes(&[aa, bb, aa]);
    let before = Manifest::decode(&raw).unwrap();
    let new = "f".repeat(40);
    let mut m = BTreeMap::new();
    m.insert(hex(&aa), new.clone());
    let out = rewrite_ref_hashes(&raw, &pairs(m)).unwrap();
    let after = Manifest::decode(&out).unwrap();
    assert_eq!(after.version, before.version);
    assert_eq!(after.name, before.name);
    assert_eq!(after.carrier_id, before.carrier_id);
    assert_eq!(after.refs.len(), 3);
    assert_eq!(after.refs[0].hash, new);
    assert_eq!(after.refs[1].hash, hex(&bb));
    assert_eq!(after.refs[2].hash, new);
}
