use pixel_carrierconfig_toolbox::confseq::{
    content_hash, fields, read_varint, tag, write_len_delim, write_varint, ConfSeq, NvItem, Val,
};
use pixel_carrierconfig_toolbox::error::{ConfseqError, Error};

fn fixture() -> ConfSeq {
    ConfSeq {
        revision: "v1.0".to_string(),
        name: "test.sim1".to_string(),
        items: vec![
            NvItem { id: 922_505_959, vals: vec![vec![4097]] },
            NvItem { id: 287_538_830, vals: vec![vec![85, 83], vec![65, 53, 48]] },
            NvItem { id: 1, vals: vec![vec![]] },
        ],
    }
}

#[test]
fn encode_then_decode_roundtrips() {
    let cs = fixture();
    let bytes = cs.encode();
    let back = ConfSeq::decode(&bytes).unwrap();
    assert_eq!(back.revision, "v1.0");
    assert_eq!(back.name, "test.sim1");
    assert_eq!(back.items.len(), 3);
    assert_eq!(back.items[1].vals, vec![vec![85, 83], vec![65, 53, 48]]);
    assert_eq!(back.items[2].vals, vec![Vec::<i64>::new()]);
    assert_eq!(back.encode(), bytes);
}

#[test]
fn content_hash_is_40_hex() {
    let h = content_hash(b"abc");
    assert_eq!(h.len(), 40);
    assert!(h.chars().all(|c| c.is_ascii_hexdigit()));
}

#[test]
fn content_hash_is_sha256_prefix_of_abc() {
    // sha256("abc") = ba7816bf8f01cfea414140de5dae2223b00361a396177a9cb410ff61f20015ad
    assert_eq!(content_hash(b"abc"), "ba7816bf8f01cfea414140de5dae2223b00361a3");
}

#[test]
fn varint_writes_and_reads_back() {
    for v in [0u64, 1, 127, 128, 300, 4097, u32::MAX as u64, u64::MAX] {
        let mut out = Vec::new();
        write_varint(&mut out, v);
        let mut i = 0usize;
        assert_eq!(read_varint(&out, &mut i).unwrap(), v);
        assert_eq!(i, out.len());
    }
    let mut out = Vec::new();
    write_varint(&mut out, 300);
    assert_eq!(out, vec![0xac, 0x02]);
}

#[test]
fn varint_at_end_of_input_is_an_error() {
    let mut i = 0usize;
    let r = read_varint(&[0x80, 0x80], &mut i);
    assert!(matches!(r, Err(Error::Confseq(ConfseqError::VarintEof))));
}

#[test]
fn tag_packs_field_and_wire_type() {
    assert_eq!(tag(1, 2), 0x0a);
    assert_eq!(tag(4, 2), 0x22);
    assert_eq!(tag(2, 0), 0x10);
}

#[test]
fn len_delim_field_is_tag_length_payload() {
    let mut out = Vec::new();
    write_len_delim(&mut out, 1, b"v1.0");
    assert_eq!(out, vec![0x0a, 0x04, b'v', b'1', b'.', b'0']);
}

#[test]
fn fields_walks_varint_and_len_fields() {
    let bytes = [0x08, 0x96, 0x01, 0x12, 0x02, 0xaa, 0xbb];
    let fs = fields(&bytes).unwrap();
    assert_eq!(fs.len(), 2);
    assert_eq!(fs[0].0, 1);
    assert!(matches!(fs[0].1, Val::Var(150)));
    assert_eq!(fs[1].0, 2);
    match &fs[1].1 {
        Val::Len(p) => assert_eq!(*p, &[0xaa, 0xbb][..]),
        _ => panic!("expected a length-delimited field"),
    }
}

#[test]
fn fields_rejects_overlong_length() {
    let r = fields(&[0x12, 0x05, 0x01]);
    assert!(matches!(r, Err(Error::Confseq(ConfseqError::LenEof))));
}

#[test]
fn fields_rejects_unknown_wire_type() {
    let r = fields(&[0x0b]);
    assert!(matches!(r, Err(Error::Confseq(ConfseqError::Wire(3)))));
}

#[test]
fn decode_of_garbage_is_an_error() {
    assert!(ConfSeq::decode(&[0x0b, 0x00]).is_err());
}

#[test]
fn invalid_utf8_text_is_repaired_lossily() {
    // revision = [0x76, 0xff], name = "n"
    let bytes = [0x0a, 0x02, 0x76, 0xff, 0x12, 0x01, b'n'];
    let cs = ConfSeq::decode(&bytes).unwrap();
    assert_eq!(cs.revision, "v\u{fffd}");
    assert_eq!(cs.name, "n");
    assert!(cs.items.is_empty());
}

#[test]
fn decode_unpacks_a_clz4_container() {
    let plain = fixture().encode();
    let packed = pixel_carrierconfig_toolbox::clz4::compress(&plain);
    let cs = ConfSeq::decode(&packed).unwrap();
    assert_eq!(cs.encode(), plain);
}
