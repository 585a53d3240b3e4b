use pixel_carrierconfig_toolbox::clz4::{compress, decompress, is_clz4};
use pixel_carrierconfig_toolbox::error::{Clz4Error, Error};

#[test]
fn roundtrip_identity() {
    let plain = b"hello hello hello world world NV.ITEM payload payload".repeat(4);
    let c = compress(&plain);
    assert!(is_clz4(&c));
    assert_eq!(decompress(&c).unwrap(), plain);
}

#[test]
fn header_fields() {
    let plain = vec![7u8; 1000];
    let c = compress(&plain);
    assert_eq!(&c[0..4], b"CLZ4");
    assert_eq!(u32::from_le_bytes(c[4..8].try_into().unwrap()), 1000);
}

#[test]
fn header_records_block_size_and_zero_checksum() {
    let plain = vec![1u8, 2, 3, 4, 5];
    let c = compress(&plain);
    let block = u32::from_le_bytes(c[8..12].try_into().unwrap()) as usize;
    assert_eq!(c.len(), 16 + block);
    assert_eq!(&c[12..16], &[0, 0, 0, 0]);
}

#[test]
fn short_or_unmarked_input_is_not_clz4() {
    assert!(!is_clz4(b"CLZ4"));
    assert!(!is_clz4(&[0u8; 32]));
    assert!(matches!(
        decompress(b"not a container at all"),
        Err(Error::Clz4(Clz4Error::BadMagicOrTooShort))
    ));
}

#[test]
fn truncated_payload_is_refused() {
    let mut c = compress(&[9u8; 100]);
    c.truncate(c.len() - 1);
    assert!(matches!(decompress(&c), Err(Error::Clz4(Clz4Error::TruncatedPayload))));
}

#[test]
fn corrupt_block_reports_the_decoder_message() {
    // header: magic, uncompressed 100, compressed 1, checksum 0; block: a lone
    // token that asks for literals the block does not hold.
    let mut c = b"CLZ4".to_vec();
    c.extend_from_slice(&100u32.to_le_bytes());
    c.extend_from_slice(&1u32.to_le_bytes());
    c.extend_from_slice(&0u32.to_le_bytes());
    c.push(0xf0);
    assert!(matches!(decompress(&c), Err(Error::Clz4(Clz4Error::Lz4(_)))));
}

#[test]
fn overlong_length_run_is_refused() {
    // 16,843,009 bytes of 0xFF sum to u32::MAX; the closing 1 would overflow it.
    let mut block = vec![0xF0u8];
    block.extend(std::iter::repeat(0xFFu8).take(16_843_009));
    block.push(1);
    let mut buf = b"CLZ4".to_vec();
    buf.extend_from_slice(&10u32.to_le_bytes());
    buf.extend_from_slice(&(block.len() as u32).to_le_bytes());
    buf.extend_from_slice(&[0, 0, 0, 0]);
    buf.extend_from_slice(&block);
    assert!(matches!(decompress(&buf), Err(Error::Clz4(Clz4Error::LengthOverflow))));
}

#[test]
fn longest_length_run_that_fits_is_read() {
    // The extended length sums to exactly u32::MAX: it fits the decoder's
    // counter, and the block fails only for running out of literals.
    let mut block = vec![0xF0u8];
    block.extend(std::iter::repeat(0xFFu8).take(16_843_009));
    block.push(0);
    let mut buf = b"CLZ4".to_vec();
    buf.extend_from_slice(&10u32.to_le_bytes());
    buf.extend_from_slice(&(block.len() as u32).to_le_bytes());
    buf.extend_from_slice(&[0, 0, 0, 0]);
    buf.extend_from_slice(&block);
    assert!(matches!(decompress(&buf), Err(Error::Clz4(Clz4Error::Lz4(_)))));
}

#[test]
fn ff_literal_bytes_are_not_lengths() {
    let plain = vec![0xFFu8; 300];
    let c = compress(&plain);
    assert_eq!(decompress(&c).unwrap(), plain);
}
