use cbor_codec::encoder::convert_vec_to_val;
use cbor_codec::encoder::encode_dataitem;
use cbor_codec::encoder::encode_dataitem_vector;
use cbor_codec::CborError;
use cbor_codec::DataItem;

fn enc(x: DataItem<'_>) -> u128 {
    convert_vec_to_val(encode_dataitem(x).unwrap())
}

#[test]
fn test_encode_single_u8() {
    assert!(enc(DataItem::UInt(0)) == 0x00);
    assert!(enc(DataItem::UInt(1)) == 0x01);
    assert!(enc(DataItem::UInt(10)) == 0x0a);
    assert!(enc(DataItem::UInt(23)) == 0x17);
}

#[test]
fn test_encode_two_byte_u8() {
    assert!(enc(DataItem::UInt(24)) == 0x1818);
    assert!(enc(DataItem::UInt(25)) == 0x1819);
    assert!(enc(DataItem::UInt(100)) == 0x1864);
}

#[test]
fn test_encode_u16() {
    assert!(enc(DataItem::UInt(1000)) == 0x1903e8);
}

#[test]
fn test_encode_u32() {
    assert!(enc(DataItem::UInt(1000000)) == 0x1a000f4240);
}

#[test]
fn test_encode_u64() {
    assert!(enc(DataItem::UInt(1000000000000)) == 0x1b000000e8d4a51000);
    assert!(enc(DataItem::UInt(u64::MAX)) == 0x1bffffffffffffffff);
}

#[test]
fn test_encode_single_nu8() {
    assert!(enc(DataItem::NUint(-1)) == 0x20);
    assert!(enc(DataItem::NUint(-10)) == 0x29);
    assert!(enc(DataItem::NUint(-24)) == 0x37);
}

#[test]
fn test_encode_two_byte_nu8() {
    assert!(enc(DataItem::NUint(-100)) == 0x3863);
}

#[test]
fn test_encode_nu16() {
    assert!(enc(DataItem::NUint(-1000)) == 0x3903e7);
}

#[test]
fn test_encode_nu32() {
    assert!(enc(DataItem::NUint(-1000000)) == 0x3a000f423f);
}

#[test]
fn test_encode_nu64() {
    assert!(enc(DataItem::NUint(-18446744073709551616)) == 0x3bffffffffffffffff);
}

#[test]
fn test_encode_f16() {
    assert!(enc(DataItem::Float((0.0f64).to_bits())) == 0xf90000);
    assert!(enc(DataItem::Float((-0.0f64).to_bits())) == 0xf98000);
    assert!(enc(DataItem::Float((1.0f64).to_bits())) == 0xf93c00);
    assert!(enc(DataItem::Float((1.5f64).to_bits())) == 0xf93e00);
    assert!(enc(DataItem::Float((65504.0f64).to_bits())) == 0xf97bff);
    assert!(enc(DataItem::Float((-4.0f64).to_bits())) == 0xf9c400);
    assert!(enc(DataItem::Float((5.960464477539063e-8f64).to_bits())) == 0xf90001);
    assert!(enc(DataItem::Float((0.00006103515625f64).to_bits())) == 0xf90400);
}

#[test]
fn test_encode_f32() {
    assert!(enc(DataItem::Float((100000.0f64).to_bits())) == 0xfa47c35000);
    assert!(enc(DataItem::Float((3.4028234663852886e+38f64).to_bits())) == 0xfa7f7fffff);
}

#[test]
fn test_encode_f64() {
    assert!(enc(DataItem::Float((1.1f64).to_bits())) == 0xfb3ff199999999999a);
    assert!(enc(DataItem::Float((1.0e+300f64).to_bits())) == 0xfb7e37e43c8800759c);
    assert!(enc(DataItem::Float((-4.1f64).to_bits())) == 0xfbc010666666666666);
}

#[test]
fn test_encode_array_size() {
    assert!(enc(DataItem::Array(0)) == 0x80);
    assert!(enc(DataItem::Array(23)) == 0x97);
    assert!(enc(DataItem::Array(24)) == 0x9818);
    assert!(enc(DataItem::Array(1000)) == 0x9903e8);
}

#[test]
fn test_encode_array() {
    let arr: [[u16; 2]; 3] = [[0, 1], [2, 3], [4, 5]];
    let mut cbor_enc: Vec<u8> = Vec::new();
    cbor_enc.append(&mut encode_dataitem(DataItem::Array(arr.len() as u64)).unwrap());

    for el in arr {
        cbor_enc.append(&mut encode_dataitem(DataItem::Array(arr[0].len() as u64)).unwrap());

        for e in el {
            cbor_enc.append(&mut encode_dataitem(DataItem::UInt(e as u64)).unwrap());
        }
    }
    assert_eq!(
        cbor_enc,
        vec![0x83, 0x82, 0x00, 0x01, 0x82, 0x02, 0x03, 0x82, 0x04, 0x05]
    );
}

#[test]
fn encoder_simple_values() {
    assert!(enc(DataItem::Simple(20)) == 0xf4);
    assert!(enc(DataItem::Simple(21)) == 0xf5);
    assert!(enc(DataItem::Simple(22)) == 0xf6);
    assert!(enc(DataItem::Simple(23)) == 0xf7);
    assert!(enc(DataItem::Simple(31)) == 0xff);
}

#[test]
fn encoder_unsupported_simple_value() {
    assert!(matches!(
        encode_dataitem(DataItem::Simple(5)),
        Err(CborError::UnsupportedSimpleValue)
    ));
    assert!(matches!(
        encode_dataitem(DataItem::Simple(24)),
        Err(CborError::UnsupportedSimpleValue)
    ));
}

#[test]
fn encoder_unsupported_items() {
    assert!(matches!(
        encode_dataitem(DataItem::Bytes(&[1, 2])),
        Err(CborError::UnsupportedFeature)
    ));
    assert!(matches!(
        encode_dataitem(DataItem::Text(b"hi")),
        Err(CborError::UnsupportedFeature)
    ));
    assert!(matches!(
        encode_dataitem(DataItem::Tag(1)),
        Err(CborError::UnsupportedFeature)
    ));
    // a negative integer below the wire range cannot be encoded
    assert!(matches!(
        encode_dataitem(DataItem::NUint(-18446744073709551617)),
        Err(CborError::UnsupportedFeature)
    ));
    assert!(matches!(
        encode_dataitem(DataItem::NUint(0)),
        Err(CborError::UnsupportedFeature)
    ));
}

#[test]
fn encoder_vector_concatenates_in_order() {
    let items = vec![
        DataItem::Array(2),
        DataItem::UInt(1),
        DataItem::NUint(-1000),
    ];
    let bytes = encode_dataitem_vector(items).unwrap();
    assert_eq!(bytes, vec![0x82, 0x01, 0x39, 0x03, 0xe7]);

    let bad = vec![DataItem::UInt(1), DataItem::Simple(9)];
    assert!(matches!(
        encode_dataitem_vector(bad),
        Err(CborError::UnsupportedSimpleValue)
    ));
}

#[test]
fn encoder_uint_boundary_canonical_lengths() {
    // the shortest of the four forms at every boundary
    assert!(enc(DataItem::UInt(255)) == 0x18ff);
    assert!(enc(DataItem::UInt(256)) == 0x190100);
    assert!(enc(DataItem::UInt(65535)) == 0x19ffff);
    assert!(enc(DataItem::UInt(65536)) == 0x1a00010000);
    assert!(enc(DataItem::UInt(4294967295)) == 0x1affffffff);
    assert!(enc(DataItem::UInt(4294967296)) == 0x1b0000000100000000);
}

#[test]
fn encoder_float_special_values() {
    // NaN never narrows: it keeps the full double form
    let nan_bits = f64::NAN.to_bits();
    let bytes = encode_dataitem(DataItem::Float(nan_bits)).unwrap();
    assert_eq!(bytes.len(), 9);
    assert_eq!(bytes[0], 0xFB);
    // infinities are half-exact
    assert!(enc(DataItem::Float(f64::INFINITY.to_bits())) == 0xf97c00);
    assert!(enc(DataItem::Float(f64::NEG_INFINITY.to_bits())) == 0xf9fc00);
}
