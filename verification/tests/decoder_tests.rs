use cbor_codec::decoder::decode;
use cbor_codec::decoder::decode_single_item;
use cbor_codec::CborError;
use cbor_codec::DataItem;

#[test]
fn decoder_test_single_byte_uint() {
    assert!(matches!(decode_single_item(&[0x10]), Ok(DataItem::UInt(16))));
}

#[test]
fn decoder_test_one_argument_byte_uint() {
    assert!(matches!(
        decode_single_item(&[0x18, 24]),
        Ok(DataItem::UInt(24))
    ));
    assert!(matches!(
        decode_single_item(&[0x18, 200]),
        Ok(DataItem::UInt(200))
    ));
    assert!(matches!(
        decode_single_item(&[0x18, 255]),
        Ok(DataItem::UInt(255))
    ));
}

#[test]
fn decoder_test_two_argument_byte_uint() {
    assert!(matches!(
        decode_single_item(&[0x19, 1, 0]),
        Ok(DataItem::UInt(256))
    ));
    assert!(matches!(
        decode_single_item(&[0x19, 2, 2]),
        Ok(DataItem::UInt(514))
    ));
    assert!(matches!(
        decode_single_item(&[0x19, 255, 255]),
        Ok(DataItem::UInt(65535))
    ));
}

#[test]
fn decoder_test_four_argument_byte_uint() {
    assert!(matches!(
        decode_single_item(&[0x1A, 1, 0, 0, 0]),
        Ok(DataItem::UInt(16777216))
    ));
    assert!(matches!(
        decode_single_item(&[0x1A, 2, 2, 2, 2]),
        Ok(DataItem::UInt(33686018))
    ));
    assert!(matches!(
        decode_single_item(&[0x1A, 255, 255, 255, 255]),
        Ok(DataItem::UInt(4294967295))
    ));
}

#[test]
fn decoder_test_eight_argument_byte_uint() {
    assert!(matches!(
        decode_single_item(&[0x1B, 255, 255, 255, 255, 255, 255, 255, 255]),
        Ok(DataItem::UInt(18446744073709551615))
    ));
}

#[test]
fn decoder_test_float() {
    assert!(matches!(
        decode_single_item(&[0xF9, 0x00, 0x00]),
        Ok(DataItem::Float(b)) if b == (0.0f64).to_bits()
    ));
    assert!(matches!(
        decode_single_item(&[0xFB, 0x3F, 0xD5, 0x4F, 0xDF, 0x3B, 0x64, 0x5A, 0x1D]),
        Ok(DataItem::Float(b)) if b == (0.333f64).to_bits()
    ));
    assert!(matches!(
        decode_single_item(&[0xFB, 0x40, 0x58, 0xFF, 0x5C, 0x28, 0xF5, 0xC2, 0x8F]),
        Ok(DataItem::Float(b)) if b == (99.99f64).to_bits()
    ));
    assert!(matches!(
        decode_single_item(&[0xF9, 0x3E, 0x00]),
        Ok(DataItem::Float(b)) if b == (1.5f64).to_bits()
    ));
}

#[test]
fn decoder_float_single_precision_width() {
    assert!(matches!(
        decode_single_item(&[0xFA, 0x47, 0xC3, 0x50, 0x00]),
        Ok(DataItem::Float(b)) if b == (100000.0f64).to_bits()
    ));
    assert!(matches!(
        decode_single_item(&[0xFA, 0x7F, 0x7F, 0xFF, 0xFF]),
        Ok(DataItem::Float(b)) if b == (3.4028234663852886e+38f64).to_bits()
    ));
}

#[test]
fn decoder_half_subnormal_and_infinity() {
    assert!(matches!(
        decode_single_item(&[0xF9, 0x00, 0x01]),
        Ok(DataItem::Float(b)) if b == (5.960464477539063e-8f64).to_bits()
    ));
    assert!(matches!(
        decode_single_item(&[0xF9, 0x7C, 0x00]),
        Ok(DataItem::Float(b)) if b == f64::INFINITY.to_bits()
    ));
    assert!(matches!(
        decode_single_item(&[0xF9, 0xFC, 0x00]),
        Ok(DataItem::Float(b)) if b == f64::NEG_INFINITY.to_bits()
    ));
}

#[test]
fn decoder_negative_integers() {
    assert!(matches!(decode_single_item(&[0x20]), Ok(DataItem::NUint(-1))));
    assert!(matches!(decode_single_item(&[0x37]), Ok(DataItem::NUint(-24))));
    assert!(matches!(
        decode_single_item(&[0x38, 0x18]),
        Ok(DataItem::NUint(-25))
    ));
    assert!(matches!(
        decode_single_item(&[0x3B, 255, 255, 255, 255, 255, 255, 255, 255]),
        Ok(DataItem::NUint(-18446744073709551616))
    ));
}

#[test]
fn decoder_bytes_text_tag_simple() {
    match decode(&[0x43, 1, 2, 3]) {
        Ok((DataItem::Bytes(b), n)) => {
            assert_eq!(b, &[1, 2, 3]);
            assert_eq!(n, 4);
        }
        other => panic!("unexpected: {:?}", other.map(|p| p.1)),
    }
    match decode(&[0x62, b'h', b'i']) {
        Ok((DataItem::Text(t), n)) => {
            assert_eq!(t, b"hi");
            assert_eq!(n, 3);
        }
        other => panic!("unexpected: {:?}", other.map(|p| p.1)),
    }
    assert!(matches!(decode_single_item(&[0xC2]), Ok(DataItem::Tag(2))));
    assert!(matches!(
        decode_single_item(&[0xF5]),
        Ok(DataItem::Simple(21))
    ));
    assert!(matches!(decode_single_item(&[0xFF]), Ok(DataItem::Break)));
}

#[test]
fn decoder_malformed_reserved_info() {
    assert!(matches!(
        decode_single_item(&[0x1C]),
        Err(CborError::MalformedInput)
    ));
    assert!(matches!(
        decode_single_item(&[0x1D]),
        Err(CborError::MalformedInput)
    ));
    assert!(matches!(
        decode_single_item(&[0x3E]),
        Err(CborError::MalformedInput)
    ));
}

#[test]
fn decoder_unsupported_features() {
    // indefinite-length array, map, long-form byte string, extended simple value
    assert!(matches!(
        decode_single_item(&[0x9F]),
        Err(CborError::UnsupportedFeature)
    ));
    assert!(matches!(
        decode_single_item(&[0xA1, 0x00, 0x01]),
        Err(CborError::UnsupportedFeature)
    ));
    assert!(matches!(
        decode_single_item(&[0x58, 0x01, 0xAB]),
        Err(CborError::UnsupportedFeature)
    ));
    assert!(matches!(
        decode_single_item(&[0xF8, 0x20]),
        Err(CborError::UnsupportedFeature)
    ));
}

#[test]
fn decoder_truncated_inputs() {
    assert!(matches!(
        decode_single_item(&[]),
        Err(CborError::TruncatedInput)
    ));
    assert!(matches!(
        decode_single_item(&[0x19, 0x01]),
        Err(CborError::TruncatedInput)
    ));
    assert!(matches!(
        decode_single_item(&[0x1B, 1, 2, 3]),
        Err(CborError::TruncatedInput)
    ));
    assert!(matches!(
        decode_single_item(&[0x45, 1, 2]),
        Err(CborError::TruncatedInput)
    ));
}
